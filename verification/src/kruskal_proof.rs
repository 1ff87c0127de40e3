//! Why each step of Kruskal's algorithm keeps its invariant, and what the
//! invariant gives when no slot waits.
//!
//! In the proofs a `let` that names what a position holds has no other use
//! than to bring that position to the prover's notice.

use crate::dice::{spec_wall_direction, Draws};
use crate::frontier::takes_vertical;
use crate::geometry::Coord;
use crate::kruskal::{
    handled, is_horizontal_slot, is_vertical_slot, labelled, level_slot, positions, united,
    KruskalView,
};
use crate::lattice::{
    distinct, is_corner, is_path, is_room, is_slot, lemma_swap_removed, listed, slot_ends, toward,
};
use crate::maze::{
    lemma_put, lemma_row_major, lemma_row_major_inverse, CellKind, MazeView, Scale, MAX_CELLS,
    UNVISITED,
};
use crate::search::{
    flooded, fresh, lemma_flood_run, lemma_flooding_start, measured, reached, spreads, Probe,
};
use crate::walks::{
    adjacent, all_rooted, connected, is_walk, lemma_linked, lemma_linked_chain, lemma_linked_mono,
    lemma_linked_pair, lemma_linked_self, lemma_rooted_connected, lemma_walk_trim, linked, peaked,
    resolved, rooted, settled,
};
use vstd::prelude::*;

verus! {

/// Whether the open cells of `m` hold labels by components: no corner is open,
/// and an open slot holds the label of the rooms it joins.
pub open spec fn levelled(m: MazeView) -> bool {
    &&& forall|x: int, y: int| #[trigger] level_slot(m, x, y)
    &&& forall|x: int, y: int|
        #![trigger m.at(x, y)]
        is_corner(x, y) ==> !is_path(m.at(x, y))
}

/// Two open cells one step apart hold one label.
proof fn lemma_step_level(m: MazeView, a: (int, int), b: (int, int))
    requires
        levelled(m),
        adjacent(a, b),
        is_path(m.at(a.0, a.1)),
        is_path(m.at(b.0, b.1)),
    ensures
        m.at(a.0, a.1) == m.at(b.0, b.1),
{
    assert(level_slot(m, a.0, a.1));
    assert(level_slot(m, b.0, b.1));
    let ka = m.at(a.0, a.1);
    let kb = m.at(b.0, b.1);
}

/// All the cells of a walk hold one label.
pub proof fn lemma_walk_level(m: MazeView, s: Seq<(int, int)>, i: int)
    requires
        levelled(m),
        is_walk(m, s),
        0 <= i < s.len(),
    ensures
        m.at(s[i].0, s[i].1) == m.at(s[0].0, s[0].1),
    decreases i,
{
    if i > 0 {
        lemma_walk_level(m, s, i - 1);
        assert(adjacent(s[i - 1], s[i - 1 + 1]));
        lemma_step_level(m, s[i - 1], s[i]);
    }
}

/// What the two lists hold at the start: every slot of its kind, once, and
/// nothing else; together no more than there are positions.
pub proof fn lemma_slots(width: int, height: int, n: int)
    requires
        1 <= width <= usize::MAX,
        1 <= height <= usize::MAX,
        0 <= n <= width * height,
    ensures
        ({
            let all = positions(width, height).take(n);
            let v = all.filter(|c: Coord| is_vertical_slot(c));
            let h = all.filter(|c: Coord| is_horizontal_slot(c));
            &&& v.len() + h.len() <= n
            &&& distinct(v)
            &&& distinct(h)
            &&& forall|i: int| 0 <= i < v.len() ==> is_vertical_slot(#[trigger] v[i])
            &&& forall|i: int| 0 <= i < h.len() ==> is_horizontal_slot(#[trigger] h[i])
            &&& forall|x: int, y: int| #[trigger]
                listed(v, x, y) <==> 0 <= x < width && 0 <= y < height && y * width + x < n && x % 2
                    == 0 && y % 2 == 1
            &&& forall|x: int, y: int| #[trigger]
                listed(h, x, y) <==> 0 <= x < width && 0 <= y < height && y * width + x < n && x % 2
                    == 1 && y % 2 == 0
        }),
    decreases n,
{
    let pv = |c: Coord| is_vertical_slot(c);
    let ph = |c: Coord| is_horizontal_slot(c);
    let whole = positions(width, height);
    let all = whole.take(n);
    let v = all.filter(pv);
    let h = all.filter(ph);
    if n == 0 {
        assert forall|x: int, y: int| #[trigger]
            listed(v, x, y) <==> 0 <= x < width && 0 <= y < height && y * width + x < n && x % 2 == 0
                && y % 2 == 1 by {
            if 0 <= x < width && 0 <= y < height {
                lemma_row_major(width, height, x, y);
            }
        }
        assert forall|x: int, y: int| #[trigger]
            listed(h, x, y) <==> 0 <= x < width && 0 <= y < height && y * width + x < n && x % 2 == 1
                && y % 2 == 0 by {
            if 0 <= x < width && 0 <= y < height {
                lemma_row_major(width, height, x, y);
            }
        }
    } else {
        lemma_slots(width, height, n - 1);
        let rest = whole.take(n - 1);
        let rv = rest.filter(pv);
        let rh = rest.filter(ph);
        let last = whole[n - 1];
        lemma_row_major_inverse(width, height, n - 1);
        let lx = (n - 1) % width;
        let ly = (n - 1) / width;
        assert(last.x == lx && last.y == ly);
        assert(all.drop_last() =~= rest);
        assert(all.last() == last);
        reveal(Seq::filter);
        assert(v == if pv(last) {
            rv.push(last)
        } else {
            rv
        });
        assert(h == if ph(last) {
            rh.push(last)
        } else {
            rh
        });
        assert(!listed(rv, lx, ly)) by {
            lemma_row_major(width, height, lx, ly);
        }
        assert(!listed(rh, lx, ly)) by {
            lemma_row_major(width, height, lx, ly);
        }
        assert forall|i: int, j: int| 0 <= i < j < v.len() implies #[trigger] v[i] != #[trigger] v[j] by {
            if j < rv.len() {
                assert(rv[i] == v[i] && rv[j] == v[j]);
            } else {
                assert(rv[i] == v[i]);
            }
        }
        assert forall|i: int, j: int| 0 <= i < j < h.len() implies #[trigger] h[i] != #[trigger] h[j] by {
            if j < rh.len() {
                assert(rh[i] == h[i] && rh[j] == h[j]);
            } else {
                assert(rh[i] == h[i]);
            }
        }
        assert forall|i: int| 0 <= i < v.len() implies is_vertical_slot(#[trigger] v[i]) by {
            if i < rv.len() {
                assert(rv[i] == v[i]);
            }
        }
        assert forall|i: int| 0 <= i < h.len() implies is_horizontal_slot(#[trigger] h[i]) by {
            if i < rh.len() {
                assert(rh[i] == h[i]);
            }
        }
        assert forall|x: int, y: int| #[trigger]
            listed(v, x, y) <==> 0 <= x < width && 0 <= y < height && y * width + x < n && x % 2 == 0
                && y % 2 == 1 by {
            assert(listed(rv, x, y) <==> 0 <= x < width && 0 <= y < height && y * width + x < n - 1
                && x % 2 == 0 && y % 2 == 1);
            if 0 <= x < width && 0 <= y < height {
                lemma_row_major(width, height, x, y);
            }
            if listed(v, x, y) {
                let i = choose|i: int| 0 <= i < v.len() && (#[trigger] v[i]).x == x && v[i].y == y;
                if i < rv.len() {
                    assert(rv[i] == v[i]);
                }
            }
            if listed(rv, x, y) {
                let i = choose|i: int| 0 <= i < rv.len() && (#[trigger] rv[i]).x == x && rv[i].y == y;
                assert(v[i] == rv[i]);
            }
            if x == lx && y == ly && pv(last) {
                assert(v[v.len() - 1].x == x);
            }
        }
        assert forall|x: int, y: int| #[trigger]
            listed(h, x, y) <==> 0 <= x < width && 0 <= y < height && y * width + x < n && x % 2 == 1
                && y % 2 == 0 by {
            assert(listed(rh, x, y) <==> 0 <= x < width && 0 <= y < height && y * width + x < n - 1
                && x % 2 == 1 && y % 2 == 0);
            if 0 <= x < width && 0 <= y < height {
                lemma_row_major(width, height, x, y);
            }
            if listed(h, x, y) {
                let i = choose|i: int| 0 <= i < h.len() && (#[trigger] h[i]).x == x && h[i].y == y;
                if i < rh.len() {
                    assert(rh[i] == h[i]);
                }
            }
            if listed(rh, x, y) {
                let i = choose|i: int| 0 <= i < rh.len() && (#[trigger] rh[i]).x == x && rh[i].y == y;
                assert(h[i] == rh[i]);
            }
            if x == lx && y == ly && ph(last) {
                assert(h[h.len() - 1].x == x);
            }
        }
    }
}

/// Generation starts in a state that has the invariant.
pub proof fn lemma_kruskal_start(m: MazeView)
    requires
        m.shaped(),
        m.pristine(),
    ensures
        KruskalView::start(m).inv(),
{
    let o = m.origin;
    let k = CellKind::PathKind(0);
    let s = KruskalView::start(m);
    lemma_put(m, o, k);
    lemma_slots(m.width, m.height, m.width * m.height);
    assert(positions(m.width, m.height).take(m.width * m.height) =~= positions(m.width, m.height));
    assert forall|x: int, y: int| #[trigger]
        s.maze.at(x, y) == if x == o.x && y == o.y {
            k
        } else {
            CellKind::Undefined
        } by {
        let a = m.at(x, y);
    }
    assert forall|i: int| 0 <= i < s.vwalls.len() implies s.maze.holds(#[trigger] s.vwalls[i])
        && is_vertical_slot(s.vwalls[i]) by {
        assert(listed(s.vwalls, s.vwalls[i].x as int, s.vwalls[i].y as int));
    }
    assert forall|i: int| 0 <= i < s.hwalls.len() implies s.maze.holds(#[trigger] s.hwalls[i])
        && is_horizontal_slot(s.hwalls[i]) by {
        assert(listed(s.hwalls, s.hwalls[i].x as int, s.hwalls[i].y as int));
    }
    assert forall|x: int, y: int| #[trigger] labelled(s, x, y) by {
        let a = s.maze.at(x, y);
    }
    assert forall|x: int, y: int| #[trigger] level_slot(s.maze, x, y) by {
        let a = s.maze.at(x, y);
    }
    assert forall|x: int, y: int|
        #![trigger handled(s, x, y)]
        None::<Coord> == Some(Coord { x: x as usize, y: y as usize }) || handled(s, x, y) by {
        let a = s.maze.at(x, y);
        if s.maze.inside(x, y) && is_slot(x, y) {
            lemma_row_major(m.width, m.height, x, y);
            assert(listed(s.vwalls, x, y) || listed(s.hwalls, x, y));
        }
    }
    assert forall|a: (int, int), b: (int, int)| #[trigger] united(s.maze, a, b) by {
        let ka = s.maze.at(a.0, a.1);
        let kb = s.maze.at(b.0, b.1);
        if is_path(ka) && ka == kb {
            lemma_linked_self(s.maze, a);
        }
    }
    assert(s.maze.kind(o) == k);
}

/// Taking a slot out of the lists leaves the invariant but for that slot.
pub proof fn lemma_kruskal_took(p: KruskalView, pick: u64, side: u64)
    requires
        p.inv(),
        !p.done(),
    ensures
        p.took(pick, side).1.inv_but(Some(p.took(pick, side).0)),
        p.took(pick, side).1.fuel() + 1 == p.fuel(),
        p.took(pick, side).1.maze == p.maze,
{
    let (w, q) = p.took(pick, side);
    let v = p.vwalls;
    let h = p.hwalls;
    let vertical = takes_vertical(v.len(), h.len(), side, p.maze.bias);
    if vertical {
        let i = pick as int % v.len() as int;
        lemma_swap_removed(v, i);
        assert(p.maze.holds(v[i]));
        assert(handled(p, w.x as int, w.y as int));
        assert forall|j: int| 0 <= j < q.vwalls.len() implies q.maze.holds(#[trigger] q.vwalls[j])
            && is_vertical_slot(q.vwalls[j]) by {
            let n = q.vwalls[j];
            assert(listed(v, n.x as int, n.y as int));
            let k = choose|k: int| 0 <= k < v.len() && (#[trigger] v[k]).x == n.x && v[k].y == n.y;
            assert(v[k] == n);
        }
        assert(!listed(h, w.x as int, w.y as int)) by {
            if listed(h, w.x as int, w.y as int) {
                let k = choose|k: int| 0 <= k < h.len() && (#[trigger] h[k]).x == w.x && h[k].y == w.y;
                assert(is_horizontal_slot(h[k]));
            }
        }
    } else {
        let i = pick as int % h.len() as int;
        lemma_swap_removed(h, i);
        assert(p.maze.holds(h[i]));
        assert(handled(p, w.x as int, w.y as int));
        assert forall|j: int| 0 <= j < q.hwalls.len() implies q.maze.holds(#[trigger] q.hwalls[j])
            && is_horizontal_slot(q.hwalls[j]) by {
            let n = q.hwalls[j];
            assert(listed(h, n.x as int, n.y as int));
            let k = choose|k: int| 0 <= k < h.len() && (#[trigger] h[k]).x == n.x && h[k].y == n.y;
            assert(h[k] == n);
        }
        assert(!listed(v, w.x as int, w.y as int)) by {
            if listed(v, w.x as int, w.y as int) {
                let k = choose|k: int| 0 <= k < v.len() && (#[trigger] v[k]).x == w.x && v[k].y == w.y;
                assert(is_vertical_slot(v[k]));
            }
        }
    }
    assert forall|x: int, y: int| #[trigger] labelled(q, x, y) by {
        assert(labelled(p, x, y));
    }
    assert forall|x: int, y: int|
        #![trigger handled(q, x, y)]
        Some(w) == Some(Coord { x: x as usize, y: y as usize }) || handled(q, x, y) by {
        assert(handled(p, x, y));
        if q.maze.inside(x, y) && !(x == w.x && y == w.y) {
            assert(listed(q.vwalls, x, y) <==> listed(v, x, y));
            assert(listed(q.hwalls, x, y) <==> listed(h, x, y));
        }
    }
}

/// Closing what is undecided, and reading the counts as shares, keeps the
/// maze in its frame.
pub proof fn lemma_closing(m: MazeView)
    requires
        m.shaped(),
    ensures
        m.sealed(false).shaped(),
        m.sealed(false).read_as(Scale::Length).shaped(),
{
    let f = m.sealed(false);
    assert forall|x: int, y: int| #[trigger]
        f.grid.dom().contains((x, y)) <==> f.inside(x, y) by {}
}

/// Whether `c1` and `c2` are the positions on the two sides of the slot `w`
/// that the grid has; at the edge of the grid both name the one there is.
pub open spec fn sides(m: MazeView, w: Coord, c1: Coord, c2: Coord) -> bool {
    let (a, b) = slot_ends(w.x as int, w.y as int);
    let oa = toward(m, a);
    let ob = toward(m, b);
    ||| (oa == Some(c1) && ob == Some(c2))
    ||| (oa == Some(c2) && ob == Some(c1))
    ||| (oa == Some(c1) && ob is None && c2 == c1)
    ||| (ob == Some(c1) && oa is None && c2 == c1)
}

/// Whether the slot `w`, taken out of the lists, and what lies on its sides
/// can take the label `d`: one side holds it already, or it is the next label
/// and nothing is open on either side.
pub open spec fn can_paint(p: KruskalView, w: Coord, c1: Coord, c2: Coord, d: int, label: int) -> bool {
    let m = p.maze;
    let k = CellKind::PathKind(d as i64);
    &&& p.inv_but(Some(w))
    &&& sides(m, w, c1, c2)
    &&& m.kind(c1) == CellKind::Undefined || m.kind(c1) == k
    &&& m.kind(c2) == CellKind::Undefined || m.kind(c2) == k
    &&& 0 <= d <= label
    &&& if label == p.label {
        m.kind(c1) == k || m.kind(c2) == k
    } else {
        label == p.label + 1 && d == label && m.kind(c1) == CellKind::Undefined && m.kind(c2)
            == CellKind::Undefined
    }
}

/// How the state `f` after the slot `w` and its sides took the label `d`
/// relates to the state `p` before.
pub open spec fn paint_shape(
    p: KruskalView,
    w: Coord,
    c1: Coord,
    c2: Coord,
    d: int,
    label: int,
    f: KruskalView,
) -> bool {
    let m = p.maze;
    &&& f.maze.shaped()
    &&& f.maze == (MazeView { grid: f.maze.grid, ..m })
    &&& f.vwalls == p.vwalls
    &&& f.hwalls == p.hwalls
    &&& f.label == label
    &&& forall|x: int, y: int| #[trigger]
        f.maze.at(x, y) == if (x == w.x && y == w.y) || (x == c1.x && y == c1.y) || (x == c2.x && y
            == c2.y) {
            CellKind::PathKind(d as i64)
        } else {
            m.at(x, y)
        }
}

/// What giving the slot and its sides one label does to the grid.
proof fn lemma_paint_shape(p: KruskalView, w: Coord, c1: Coord, c2: Coord, d: int, label: int)
    requires
        can_paint(p, w, c1, c2, d, label),
    ensures
        paint_shape(p, w, c1, c2, d, label, p.painted(w, c1, c2, d, label)),
{
    let m = p.maze;
    let k = CellKind::PathKind(d as i64);
    let f = p.painted(w, c1, c2, d, label);
    lemma_put(m, w, k);
    lemma_put(m.put(w, k), c1, k);
    lemma_put(m.put(w, k).put(c1, k), c2, k);
    assert forall|x: int, y: int| #[trigger]
        f.maze.at(x, y) == if (x == w.x && y == w.y) || (x == c1.x && y == c1.y) || (x == c2.x && y
            == c2.y) {
            k
        } else {
            m.at(x, y)
        } by {
        let a1 = m.put(w, k).at(x, y);
        let a2 = m.put(w, k).put(c1, k).at(x, y);
    }
    assert(f.maze =~= (MazeView { grid: f.maze.grid, ..m }));
}

/// After the slot and its sides took the label `d`, a walk leads from the slot
/// to every cell with that label.
proof fn lemma_painted_anchor(
    p: KruskalView,
    w: Coord,
    c1: Coord,
    c2: Coord,
    d: int,
    label: int,
    f: KruskalView,
    a: (int, int),
)
    requires
        can_paint(p, w, c1, c2, d, label),
        paint_shape(p, w, c1, c2, d, label, f),
        f.maze.at(a.0, a.1) == CellKind::PathKind(d as i64),
    ensures
        linked(f.maze, (w.x as int, w.y as int), a),
{
    let m = p.maze;
    let k = CellKind::PathKind(d as i64);
    let r = (w.x as int, w.y as int);
    let e1 = (c1.x as int, c1.y as int);
    let e2 = (c2.x as int, c2.y as int);
    let kw = f.maze.at(r.0, r.1);
    let k1 = f.maze.at(e1.0, e1.1);
    let k2 = f.maze.at(e2.0, e2.1);
    if a == r {
        lemma_linked_self(f.maze, r);
    } else if a == e1 || a == e2 {
        lemma_linked_pair(f.maze, r, a);
    } else {
        assert(m.at(a.0, a.1) == k);
        assert(labelled(p, a.0, a.1));
        let e = if m.kind(c1) == k {
            e1
        } else {
            e2
        };
        assert(m.at(e.0, e.1) == k);
        assert(united(m, e, a));
        assert forall|x: int, y: int| is_path(#[trigger] m.at(x, y)) implies is_path(
            f.maze.at(x, y),
        ) by {}
        lemma_linked_mono(m, f.maze, e, a);
        lemma_linked_pair(f.maze, r, e);
        lemma_linked_chain(f.maze, r, e, a);
    }
}

/// Giving the slot and its sides one label restores the invariant.
pub proof fn lemma_kruskal_painted(p: KruskalView, w: Coord, c1: Coord, c2: Coord, d: int, label: int)
    requires
        can_paint(p, w, c1, c2, d, label),
    ensures
        p.painted(w, c1, c2, d, label).inv(),
        p.maze.same_frame(p.painted(w, c1, c2, d, label).maze),
        settled(p.maze, p.painted(w, c1, c2, d, label).maze),
{
    let m = p.maze;
    let k = CellKind::PathKind(d as i64);
    let f = p.painted(w, c1, c2, d, label);
    lemma_paint_shape(p, w, c1, c2, d, label);
    assert(paint_shape(p, w, c1, c2, d, label, f));
    assert forall|x: int, y: int| #[trigger] labelled(f, x, y) by {
        assert(labelled(p, x, y));
        let a = f.maze.at(x, y);
    }
    assert forall|x: int, y: int| #[trigger] level_slot(f.maze, x, y) by {
        assert(level_slot(m, x, y));
        let (a, b) = slot_ends(x, y);
        let kk = f.maze.at(x, y);
        let ka = f.maze.at(a.0, a.1);
        let kb = f.maze.at(b.0, b.1);
    }
    assert forall|x: int, y: int|
        #![trigger handled(f, x, y)]
        None::<Coord> == Some(Coord { x: x as usize, y: y as usize }) || handled(f, x, y) by {
        let (a, b) = slot_ends(x, y);
        let kk = f.maze.at(x, y);
        let ka = f.maze.at(a.0, a.1);
        let kb = f.maze.at(b.0, b.1);
        if f.maze.inside(x, y) && is_slot(x, y) && !(x == w.x && y == w.y) {
            assert(Some(w) != Some(Coord { x: x as usize, y: y as usize }));
            assert(handled(p, x, y));
        }
    }
    assert forall|x: int, y: int| is_path(#[trigger] m.at(x, y)) implies is_path(f.maze.at(x, y)) by {}
    assert forall|a: (int, int), b: (int, int)| #[trigger] united(f.maze, a, b) by {
        let ka = f.maze.at(a.0, a.1);
        let kb = f.maze.at(b.0, b.1);
        if is_path(ka) && ka == kb {
            if ka == k {
                lemma_painted_anchor(p, w, c1, c2, d, label, f, a);
                lemma_painted_anchor(p, w, c1, c2, d, label, f, b);
                lemma_linked(f.maze, (w.x as int, w.y as int), a, b);
            } else {
                assert(united(m, a, b));
                lemma_linked_mono(m, f.maze, a, b);
            }
        }
    }
    let ko = f.maze.at(m.origin.x as int, m.origin.y as int);
}

/// Whether the slot `w`, taken out of the lists, lies between the room `c1`
/// with the label `d1` and the room `c2` with another label `d2`.
pub open spec fn can_merge(p: KruskalView, w: Coord, c1: Coord, c2: Coord, d1: i64, d2: i64) -> bool {
    let m = p.maze;
    let (a, b) = slot_ends(w.x as int, w.y as int);
    &&& p.inv_but(Some(w))
    &&& (toward(m, a) == Some(c1) && toward(m, b) == Some(c2)) || (toward(m, a) == Some(c2)
        && toward(m, b) == Some(c1))
    &&& m.kind(c1) == CellKind::PathKind(d1)
    &&& m.kind(c2) == CellKind::PathKind(d2)
    &&& d1 != d2
}

/// How the state `f` after the slot `w` was opened between two components
/// relates to the state `p` before: the slot holds the label of the first, and
/// so does every cell that held the label of the second.
pub open spec fn merge_shape(p: KruskalView, w: Coord, d1: i64, d2: i64, f: KruskalView) -> bool {
    let m = p.maze;
    &&& f.maze.shaped()
    &&& f.maze == (MazeView { grid: f.maze.grid, ..m })
    &&& f.vwalls == p.vwalls
    &&& f.hwalls == p.hwalls
    &&& f.label == p.label
    &&& forall|x: int, y: int| #[trigger]
        f.maze.at(x, y) == if (x == w.x && y == w.y) || m.at(x, y) == CellKind::PathKind(d2) {
            CellKind::PathKind(d1)
        } else {
            m.at(x, y)
        }
}

/// The invariant has the open cells hold labels by components.
proof fn lemma_levelled(p: KruskalView, hole: Option<Coord>)
    requires
        p.inv_but(hole),
    ensures
        levelled(p.maze),
{
    assert forall|x: int, y: int| #![trigger p.maze.at(x, y)] is_corner(x, y) implies !is_path(
        p.maze.at(x, y),
    ) by {
        assert(labelled(p, x, y));
    }
}

/// The label of the first component spreads from `c2` to the cells that hold
/// the label of the second, and to no others.
proof fn lemma_merge_reach(p: KruskalView, w: Coord, c1: Coord, c2: Coord, d1: i64, d2: i64, x: int, y: int)
    requires
        can_merge(p, w, c1, c2, d1, d2),
        !(x == w.x && y == w.y),
    ensures
        (fresh(Probe::Unlabelled(d1), p.maze.at(x, y)) && reached(
            p.maze.put(w, CellKind::PathKind(d1)),
            Probe::Unlabelled(d1),
            c2,
            x,
            y,
        )) <==> p.maze.at(x, y) == CellKind::PathKind(d2),
{
    let m = p.maze;
    let probe = Probe::Unlabelled(d1);
    let m1 = m.put(w, CellKind::PathKind(d1));
    let e2 = (c2.x as int, c2.y as int);
    lemma_put(m, w, CellKind::PathKind(d1));
    lemma_levelled(p, Some(w));
    if m.at(x, y) == CellKind::PathKind(d2) {
        assert(united(m, e2, (x, y)));
        let s = choose|s: Seq<(int, int)>|
            is_walk(m, s) && #[trigger] s.first() == e2 && s.last() == (x, y);
        assert forall|i: int| 1 <= i < s.len() implies fresh(
            probe,
            m1.at((#[trigger] s[i]).0, s[i].1),
        ) by {
            lemma_walk_level(m, s, i);
            assert(is_path(m.at(s[i].0, s[i].1)));
        }
        assert(spreads(m1, probe, s));
    }
    if fresh(probe, m.at(x, y)) && reached(m1, probe, c2, x, y) {
        let s = choose|s: Seq<(int, int)>|
            spreads(m1, probe, s) && #[trigger] s.first() == e2 && s.last() == (x, y);
        assert forall|i: int| 0 <= i < s.len() implies is_path(m.at((#[trigger] s[i]).0, s[i].1)) by {
            if i >= 1 {
                assert(fresh(probe, m1.at(s[i].0, s[i].1)));
                let k = m1.at(s[i].0, s[i].1);
            }
        }
        assert(is_walk(m, s));
        lemma_walk_level(m, s, s.len() - 1);
    }
}

/// What opening a slot between two components does to the grid.
proof fn lemma_merge_shape(p: KruskalView, w: Coord, c1: Coord, c2: Coord, d1: i64, d2: i64)
    requires
        can_merge(p, w, c1, c2, d1, d2),
    ensures
        merge_shape(p, w, d1, d2, p.merged(w, d1, c2)),
{
    let m = p.maze;
    let probe = Probe::Unlabelled(d1);
    let m1 = m.put(w, CellKind::PathKind(d1));
    let f = p.merged(w, d1, c2);
    lemma_put(m, w, CellKind::PathKind(d1));
    assert forall|x: int, y: int| #[trigger]
        f.maze.grid.dom().contains((x, y)) <==> f.maze.inside(x, y) by {}
    assert forall|x: int, y: int| #[trigger]
        f.maze.at(x, y) == if (x == w.x && y == w.y) || m.at(x, y) == CellKind::PathKind(d2) {
            CellKind::PathKind(d1)
        } else {
            m.at(x, y)
        } by {
        let a1 = m1.at(x, y);
        assert(m1.grid.dom().contains((x, y)) <==> m1.inside(x, y));
        if !(x == w.x && y == w.y) {
            lemma_merge_reach(p, w, c1, c2, d1, d2, x, y);
        }
    }
    assert(f.maze =~= (MazeView { grid: f.maze.grid, ..m }));
}

/// After two components were joined, a walk leads from the slot to every cell
/// with their label.
proof fn lemma_merged_anchor(
    p: KruskalView,
    w: Coord,
    c1: Coord,
    c2: Coord,
    d1: i64,
    d2: i64,
    f: KruskalView,
    a: (int, int),
)
    requires
        can_merge(p, w, c1, c2, d1, d2),
        merge_shape(p, w, d1, d2, f),
        f.maze.at(a.0, a.1) == CellKind::PathKind(d1),
    ensures
        linked(f.maze, (w.x as int, w.y as int), a),
{
    let m = p.maze;
    let r = (w.x as int, w.y as int);
    let e1 = (c1.x as int, c1.y as int);
    let e2 = (c2.x as int, c2.y as int);
    let kw = f.maze.at(r.0, r.1);
    let k1 = f.maze.at(e1.0, e1.1);
    let k2 = f.maze.at(e2.0, e2.1);
    assert forall|x: int, y: int| is_path(#[trigger] m.at(x, y)) implies is_path(f.maze.at(x, y)) by {}
    if a == r {
        lemma_linked_self(f.maze, r);
    } else {
        let e = if m.at(a.0, a.1) == CellKind::PathKind(d1) {
            e1
        } else {
            e2
        };
        assert(united(m, e, a));
        lemma_linked_mono(m, f.maze, e, a);
        lemma_linked_pair(f.maze, r, e);
        lemma_linked_chain(f.maze, r, e, a);
    }
}

/// Opening a slot between two components, and giving the second the label of
/// the first, restores the invariant.
pub proof fn lemma_kruskal_merged(p: KruskalView, w: Coord, c1: Coord, c2: Coord, d1: i64, d2: i64)
    requires
        can_merge(p, w, c1, c2, d1, d2),
    ensures
        p.merged(w, d1, c2).inv(),
        p.maze.same_frame(p.merged(w, d1, c2).maze),
        settled(p.maze, p.merged(w, d1, c2).maze),
{
    let m = p.maze;
    let f = p.merged(w, d1, c2);
    lemma_merge_shape(p, w, c1, c2, d1, d2);
    assert(merge_shape(p, w, d1, d2, f));
    assert(labelled(p, c1.x as int, c1.y as int));
    assert forall|x: int, y: int| #[trigger] labelled(f, x, y) by {
        assert(labelled(p, x, y));
        let a = f.maze.at(x, y);
    }
    assert forall|x: int, y: int| #[trigger] level_slot(f.maze, x, y) by {
        assert(level_slot(m, x, y));
        let (a, b) = slot_ends(x, y);
        let kk = f.maze.at(x, y);
        let ka = f.maze.at(a.0, a.1);
        let kb = f.maze.at(b.0, b.1);
    }
    assert forall|x: int, y: int|
        #![trigger handled(f, x, y)]
        None::<Coord> == Some(Coord { x: x as usize, y: y as usize }) || handled(f, x, y) by {
        let (a, b) = slot_ends(x, y);
        let kk = f.maze.at(x, y);
        let ka = f.maze.at(a.0, a.1);
        let kb = f.maze.at(b.0, b.1);
        if f.maze.inside(x, y) && is_slot(x, y) && !(x == w.x && y == w.y) {
            assert(Some(w) != Some(Coord { x: x as usize, y: y as usize }));
            assert(handled(p, x, y));
        }
    }
    assert forall|x: int, y: int| is_path(#[trigger] m.at(x, y)) implies is_path(f.maze.at(x, y)) by {}
    assert forall|a: (int, int), b: (int, int)| #[trigger] united(f.maze, a, b) by {
        let ka = f.maze.at(a.0, a.1);
        let kb = f.maze.at(b.0, b.1);
        if is_path(ka) && ka == kb {
            if ka == CellKind::PathKind(d1) {
                lemma_merged_anchor(p, w, c1, c2, d1, d2, f, a);
                lemma_merged_anchor(p, w, c1, c2, d1, d2, f, b);
                lemma_linked(f.maze, (w.x as int, w.y as int), a, b);
            } else {
                assert(united(m, a, b));
                lemma_linked_mono(m, f.maze, a, b);
            }
        }
    }
    let ko = f.maze.at(m.origin.x as int, m.origin.y as int);
}

/// A slot inside one component stays closed, and the invariant holds again.
pub proof fn lemma_kruskal_skipped(p: KruskalView, w: Coord)
    requires
        p.inv_but(Some(w)),
        ({
            let (a, b) = slot_ends(w.x as int, w.y as int);
            is_path(p.maze.at(a.0, a.1)) && p.maze.at(a.0, a.1) == p.maze.at(b.0, b.1)
        }),
    ensures
        p.inv(),
{
    assert forall|x: int, y: int|
        #![trigger handled(p, x, y)]
        None::<Coord> == Some(Coord { x: x as usize, y: y as usize }) || handled(p, x, y) by {
        if x == w.x && y == w.y {
        } else {
            assert(Some(w) != Some(Coord { x: x as usize, y: y as usize }) || !p.maze.inside(x, y));
        }
    }
}

/// Trying a slot at the edge of the grid restores the invariant.
proof fn lemma_kruskal_edged(p: KruskalView, w: Coord, c: Coord)
    requires
        p.inv_but(Some(w)),
        sides(p.maze, w, c, c),
    ensures
        p.edged(w, c).inv(),
        p.maze.same_frame(p.edged(w, c).maze),
        settled(p.maze, p.edged(w, c).maze),
{
    let m = p.maze;
    assert(labelled(p, c.x as int, c.y as int));
    match m.kind(c) {
        CellKind::PathKind(d) => {
            let k = CellKind::PathKind(d);
            lemma_put(m, w, k);
            lemma_put(m.put(w, k), c, k);
            lemma_put(m.put(w, k).put(c, k), c, k);
            assert(m.put(w, k).grid =~= m.put(w, k).put(c, k).put(c, k).grid);
            assert(p.edged(w, c) =~= p.painted(w, c, c, d as int, p.label));
            assert(can_paint(p, w, c, c, d as int, p.label));
            lemma_kruskal_painted(p, w, c, c, d as int, p.label);
        },
        CellKind::Undefined => {
            assert(can_paint(p, w, c, c, p.label + 1, p.label + 1));
            lemma_kruskal_painted(p, w, c, c, p.label + 1, p.label + 1);
        },
        _ => {},
    }
}

/// Trying a slot restores the invariant, whichever of its sides is looked at
/// first.
proof fn lemma_kruskal_tried_ordered(p: KruskalView, w: Coord, e1: (int, int), e2: (int, int))
    requires
        p.inv_but(Some(w)),
        (e1, e2) == slot_ends(w.x as int, w.y as int) || (e2, e1) == slot_ends(
            w.x as int,
            w.y as int,
        ),
    ensures
        p.tried(w, toward(p.maze, e1), toward(p.maze, e2)).inv(),
        p.maze.same_frame(p.tried(w, toward(p.maze, e1), toward(p.maze, e2)).maze),
        settled(p.maze, p.tried(w, toward(p.maze, e1), toward(p.maze, e2)).maze),
{
    let m = p.maze;
    let o1 = toward(m, e1);
    let o2 = toward(m, e2);
    assert(labelled(p, e1.0, e1.1));
    assert(labelled(p, e2.0, e2.1));
    match (o1, o2) {
        (Some(c1), Some(c2)) => {
            match (m.kind(c1), m.kind(c2)) {
                (CellKind::PathKind(d1), CellKind::PathKind(d2)) => {
                    if d1 != d2 {
                        assert(can_merge(p, w, c1, c2, d1, d2));
                        lemma_kruskal_merged(p, w, c1, c2, d1, d2);
                    } else {
                        lemma_kruskal_skipped(p, w);
                    }
                },
                (CellKind::PathKind(d), CellKind::Undefined) => {
                    assert(sides(m, w, c1, c2));
                    assert(can_paint(p, w, c1, c2, d as int, p.label));
                    lemma_kruskal_painted(p, w, c1, c2, d as int, p.label);
                },
                (CellKind::Undefined, CellKind::PathKind(d)) => {
                    assert(sides(m, w, c1, c2));
                    assert(can_paint(p, w, c1, c2, d as int, p.label));
                    lemma_kruskal_painted(p, w, c1, c2, d as int, p.label);
                },
                (CellKind::Undefined, CellKind::Undefined) => {
                    assert(sides(m, w, c1, c2));
                    assert(can_paint(p, w, c1, c2, p.label + 1, p.label + 1));
                    lemma_kruskal_painted(p, w, c1, c2, p.label + 1, p.label + 1);
                },
                _ => {},
            }
        },
        (Some(c), None) => {
            assert(sides(m, w, c, c));
            lemma_kruskal_edged(p, w, c);
        },
        (None, Some(c)) => {
            assert(sides(m, w, c, c));
            lemma_kruskal_edged(p, w, c);
        },
        (None, None) => {},
    }
}

/// Trying a slot that was taken out of the lists restores the invariant.
pub proof fn lemma_kruskal_opened(p: KruskalView, w: Coord, turn: u64, coin: u8)
    requires
        p.inv_but(Some(w)),
    ensures
        p.opened(w, turn, coin).inv(),
        p.opened(w, turn, coin).fuel() == p.fuel(),
        p.maze.same_frame(p.opened(w, turn, coin).maze),
        settled(p.maze, p.opened(w, turn, coin).maze),
        p.label + 1 <= MAX_CELLS,
{
    let m = p.maze;
    let (a, b) = slot_ends(w.x as int, w.y as int);
    let dir = spec_wall_direction(w, turn, coin, m.bias)->0;
    let o1 = m.step(w, dir);
    let o2 = m.step(w, dir.reversed());
    if (o1, o2) == (toward(m, a), toward(m, b)) {
        lemma_kruskal_tried_ordered(p, w, a, b);
    } else {
        assert((o1, o2) == (toward(m, b), toward(m, a)));
        lemma_kruskal_tried_ordered(p, w, b, a);
    }
    lemma_fuel_kept(p, w, o1, o2);
}

/// Trying a slot leaves the lists as they are.
proof fn lemma_fuel_kept(p: KruskalView, w: Coord, o1: Option<Coord>, o2: Option<Coord>)
    ensures
        p.tried(w, o1, o2).vwalls == p.vwalls,
        p.tried(w, o1, o2).hwalls == p.hwalls,
{
}

/// When no slot waits, the room behind a slot holds the label of the room
/// before it.
proof fn lemma_kruskal_closure(p: KruskalView, a: (int, int), s: (int, int), b: (int, int))
    requires
        p.inv(),
        p.done(),
        p.maze.inside(a.0, a.1),
        p.maze.inside(b.0, b.1),
        p.maze.inside(s.0, s.1),
        is_path(p.maze.at(a.0, a.1)),
        (a, b) == slot_ends(s.0, s.1) || (b, a) == slot_ends(s.0, s.1),
        is_slot(s.0, s.1),
    ensures
        p.maze.at(b.0, b.1) == p.maze.at(a.0, a.1),
{
    assert(handled(p, s.0, s.1));
    if listed(p.vwalls, s.0, s.1) {
        let i = choose|i: int| 0 <= i < p.vwalls.len() && (#[trigger] p.vwalls[i]).x == s.0;
    }
    if listed(p.hwalls, s.0, s.1) {
        let i = choose|i: int| 0 <= i < p.hwalls.len() && (#[trigger] p.hwalls[i]).x == s.0;
    }
}

/// When no slot waits, every room in the row of the origin holds its label.
proof fn lemma_kruskal_row(p: KruskalView, x: int)
    requires
        p.inv(),
        p.done(),
        0 <= x < p.maze.width,
        x % 2 == 0,
    ensures
        p.maze.at(x, p.maze.origin.y as int) == p.maze.kind(p.maze.origin),
    decreases
        if x < p.maze.origin.x {
            p.maze.origin.x - x
        } else {
            x - p.maze.origin.x
        },
{
    let ox = p.maze.origin.x as int;
    let oy = p.maze.origin.y as int;
    if x < ox {
        lemma_kruskal_row(p, x + 2);
        lemma_kruskal_closure(p, (x + 2, oy), (x + 1, oy), (x, oy));
    } else if x > ox {
        lemma_kruskal_row(p, x - 2);
        lemma_kruskal_closure(p, (x - 2, oy), (x - 1, oy), (x, oy));
    }
}

/// When no slot waits, every room holds the label of the origin.
pub proof fn lemma_kruskal_rooms(p: KruskalView, x: int, y: int)
    requires
        p.inv(),
        p.done(),
        p.maze.inside(x, y),
        is_room(x, y),
    ensures
        p.maze.at(x, y) == p.maze.kind(p.maze.origin),
    decreases
        if y < p.maze.origin.y {
            p.maze.origin.y - y
        } else {
            y - p.maze.origin.y
        },
{
    let oy = p.maze.origin.y as int;
    if y < oy {
        lemma_kruskal_rooms(p, x, y + 2);
        lemma_kruskal_closure(p, (x, y + 2), (x, y + 1), (x, y));
    } else if y > oy {
        lemma_kruskal_rooms(p, x, y - 2);
        lemma_kruskal_closure(p, (x, y - 2), (x, y - 1), (x, y));
    } else {
        lemma_kruskal_row(p, x);
    }
}

/// When no slot waits, the open cells are one component.
pub proof fn lemma_kruskal_joined(p: KruskalView)
    requires
        p.inv(),
        p.done(),
    ensures
        connected(p.maze),
        forall|x: int, y: int|
            p.maze.inside(x, y) && is_room(x, y) ==> is_path(#[trigger] p.maze.at(x, y)),
{
    let m = p.maze;
    let o = (m.origin.x as int, m.origin.y as int);
    assert forall|x: int, y: int| m.inside(x, y) && is_room(x, y) implies is_path(
        #[trigger] m.at(x, y),
    ) by {
        lemma_kruskal_rooms(p, x, y);
    }
    assert forall|x: int, y: int| #![trigger m.at(x, y)] is_path(m.at(x, y)) implies linked(
        m,
        o,
        (x, y),
    ) by {
        assert(labelled(p, x, y));
        if is_room(x, y) {
            lemma_kruskal_rooms(p, x, y);
        } else {
            assert(level_slot(m, x, y));
            if x % 2 == 0 {
                lemma_kruskal_rooms(p, x, y - 1);
            } else {
                lemma_kruskal_rooms(p, x - 1, y);
            }
        }
        assert(united(m, o, (x, y)));
    }
}

/// When no slot waits on a grid of more than one position, the origin is not
/// the only open cell.
pub proof fn lemma_kruskal_company(p: KruskalView) -> (c: (int, int))
    requires
        p.inv(),
        p.done(),
        p.maze.width > 1 || p.maze.height > 1,
    ensures
        is_path(p.maze.at(c.0, c.1)),
        c != (p.maze.origin.x as int, p.maze.origin.y as int),
{
    let m = p.maze;
    let ox = m.origin.x as int;
    let oy = m.origin.y as int;
    let s: (int, int) = if m.width > 1 {
        if ox + 1 < m.width {
            (ox + 1, oy)
        } else {
            (ox - 1, oy)
        }
    } else {
        if oy + 1 < m.height {
            (ox, oy + 1)
        } else {
            (ox, oy - 1)
        }
    };
    let (a, b) = slot_ends(s.0, s.1);
    assert(handled(p, s.0, s.1));
    if listed(p.vwalls, s.0, s.1) {
        let i = choose|i: int| 0 <= i < p.vwalls.len() && (#[trigger] p.vwalls[i]).x == s.0;
    }
    if listed(p.hwalls, s.0, s.1) {
        let i = choose|i: int| 0 <= i < p.hwalls.len() && (#[trigger] p.hwalls[i]).x == s.0;
    }
    if m.inside(a.0, a.1) && m.inside(b.0, b.1) {
        if a == (ox, oy) {
            b
        } else {
            a
        }
    } else {
        s
    }
}

/// What Kruskal's algorithm leaves after its last step.
///
/// Nothing on the grid is undecided; every room is open; a walk leads from the
/// origin, which stands at 0 steps, to every open cell, and each open cell
/// holds one step more than one of its neighbours; the end holds the greatest
/// count of steps, which is the maze's length; and the counts are to be read
/// as shares of that length.
pub proof fn lemma_kruskal_finished(p: KruskalView)
    requires
        p.inv(),
        p.done(),
    ensures
        resolved(p.finished().maze),
        forall|x: int, y: int|
            p.maze.inside(x, y) && is_room(x, y) ==> is_path(#[trigger] p.finished().maze.at(x, y)),
        all_rooted(p.finished().maze),
        connected(p.finished().maze),
        p.finished().maze.kind(p.maze.origin) == CellKind::PathKind(0),
        peaked(p.finished().maze),
        p.finished().maze.scale == Scale::Length,
        p.finished().maze.shaped(),
{
    let f = p.finished();
    let m = p.maze;
    let o = m.origin;
    let oo = (o.x as int, o.y as int);
    let m1 = p.cleared();
    let probe = Probe::Unvisited;
    let fm = f.maze;
    lemma_kruskal_joined(p);
    let mc = m.cleared();
    assert forall|x: int, y: int| #[trigger]
        mc.grid.dom().contains((x, y)) <==> mc.inside(x, y) by {}
    lemma_put(mc, o, CellKind::PathKind(0));
    let flood = m1.flood_from(o, m.len, m.end);
    let m2 = flood.maze;
    let best = flood.best;
    let place = flood.place;
    lemma_flooding_start(m1, o, m.len, m.end);
    lemma_flood_run(m1, m1, o, Seq::empty(), o, 0, m.len, m.end, m.len, m.end);
    assert(flooded(m1, o, m2) && measured(m1, m2, m.len, m.end, best, place));
    assert forall|x: int, y: int| #[trigger]
        m1.at(x, y) == if x == o.x && y == o.y {
            CellKind::PathKind(0)
        } else if is_path(m.at(x, y)) {
            CellKind::PathKind(UNVISITED)
        } else {
            m.at(x, y)
        } by {
        let a = mc.at(x, y);
        assert(m.grid.dom().contains((x, y)) <==> m.inside(x, y));
    }
    // every open cell but the origin is reached, and gets its count
    assert forall|x: int, y: int|
        #![trigger m2.at(x, y)]
        is_path(m.at(x, y)) && !(x == o.x && y == o.y) implies fresh(probe, m1.at(x, y)) && reached(
        m1,
        probe,
        o,
        x,
        y,
    ) by {
        let a = m.at(x, y);
        let s = choose|s: Seq<(int, int)>|
            is_walk(m, s) && #[trigger] s.first() == oo && s.last() == (x, y);
        let t = lemma_walk_trim(m, s, oo);
        assert forall|i: int| 1 <= i < t.len() implies fresh(
            probe,
            m1.at((#[trigger] t[i]).0, t[i].1),
        ) by {
            assert(is_path(m.at(t[i].0, t[i].1)));
            assert(t[i] != oo);
        }
        assert(spreads(m1, probe, t) && t.first() == oo && t.last() == (x, y));
    }
    assert forall|x: int, y: int| #[trigger]
        fm.grid.dom().contains((x, y)) <==> fm.inside(x, y) by {}
    let m3 = m2.stretch(place, best);
    assert forall|x: int, y: int| #[trigger]
        fm.at(x, y) == if m2.inside(x, y) && m2.at(x, y) == CellKind::Undefined {
            CellKind::WallKind
        } else {
            m2.at(x, y)
        } by {
        assert(m3.grid.dom().contains((x, y)) <==> m3.inside(x, y));
        let a = m3.at(x, y);
    }
    assert forall|x: int, y: int| #![trigger m2.at(x, y)] is_path(m2.at(x, y)) == is_path(m.at(x, y)) by {
        let a = m1.at(x, y);
        assert(labelled(p, x, y));
    }
    assert forall|x: int, y: int| #[trigger] rooted(fm, x, y) by {
        let a = m2.at(x, y);
        let a1 = m1.at(x, y);
        let a0 = m.at(x, y);
        let k1 = fm.at(x - 1, y);
        let k2 = fm.at(x + 1, y);
        let k3 = fm.at(x, y - 1);
        let k4 = fm.at(x, y + 1);
        let j1 = m2.at(x - 1, y);
        let j2 = m2.at(x + 1, y);
        let j3 = m2.at(x, y - 1);
        let j4 = m2.at(x, y + 1);
    }
    lemma_rooted_connected(fm);
    assert forall|x: int, y: int| fm.inside(x, y) implies #[trigger] fm.at(x, y)
        != CellKind::Undefined by {}
    assert forall|x: int, y: int| m.inside(x, y) && is_room(x, y) implies is_path(
        #[trigger] fm.at(x, y),
    ) by {
        let a = m2.at(x, y);
        assert(is_path(m.at(x, y)));
    }
    let ko = m2.at(oo.0, oo.1);
    let ko1 = m1.at(oo.0, oo.1);
    let kf = fm.at(oo.0, oo.1);
    assert forall|x: int, y: int|
        #![trigger fm.at(x, y)]
        is_path(fm.at(x, y)) implies fm.at(x, y)->PathKind_0 <= fm.len by {
        let a = m2.at(x, y);
        let a1 = m1.at(x, y);
    }
    if best > 0 {
        let kp = m2.at(place.x as int, place.y as int);
        let kpf = fm.at(place.x as int, place.y as int);
    } else {
        if m.width > 1 || m.height > 1 {
            let c = lemma_kruskal_company(p);
            let a = m2.at(c.0, c.1);
            let a1 = m1.at(c.0, c.1);
            assert(false);
        }
    }
}

/// A step of Kruskal's algorithm undoes nothing: what was decided stays
/// decided, and what was open stays open. The invariant holds after the step,
/// and one slot less waits.
pub proof fn lemma_kruskal_step(p: KruskalView, draws: Draws)
    requires
        p.inv(),
        !p.done(),
    ensures
        p.stepped(draws).inv(),
        p.stepped(draws).fuel() < p.fuel(),
        settled(p.maze, p.stepped(draws).maze),
        p.maze.same_frame(p.stepped(draws).maze),
{
    lemma_kruskal_took(p, draws.pick, draws.side);
    let (w, q) = p.took(draws.pick, draws.side);
    lemma_kruskal_opened(q, w, draws.turn, draws.coin);
}

} // verus!
