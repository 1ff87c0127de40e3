//! Walks through the open cells of a maze, and what it means for a maze to be
//! connected, complete and measured.

use crate::lattice::{is_path, is_room, open_rooms, open_slots};
use crate::maze::{CellKind, MazeView, Scale};
use vstd::prelude::*;

verus! {

/// Whether `a` and `b` are one step apart.
pub open spec fn adjacent(a: (int, int), b: (int, int)) -> bool {
    (a.0 == b.0 && (a.1 == b.1 - 1 || a.1 == b.1 + 1)) || (a.1 == b.1 && (a.0 == b.0 - 1 || a.0
        == b.0 + 1))
}

/// Whether `s` is a walk: a sequence of open cells, each one step from the
/// one before.
pub open spec fn is_walk(m: MazeView, s: Seq<(int, int)>) -> bool {
    &&& s.len() >= 1
    &&& forall|i: int| 0 <= i < s.len() ==> is_path(m.at((#[trigger] s[i]).0, s[i].1))
    &&& forall|i: int| 0 <= i < s.len() - 1 ==> adjacent(#[trigger] s[i], s[i + 1])
}

/// Whether a walk leads from `a` to `b`.
pub open spec fn linked(m: MazeView, a: (int, int), b: (int, int)) -> bool {
    exists|s: Seq<(int, int)>| is_walk(m, s) && #[trigger] s.first() == a && s.last() == b
}

/// Whether the open cell `(x, y)` holds a count of steps that is not negative,
/// is 0 at the origin only, and is one more than that of some neighbour if it
/// is not 0.
pub open spec fn rooted(m: MazeView, x: int, y: int) -> bool {
    match m.at(x, y) {
        CellKind::PathKind(d) => {
            let nearer = CellKind::PathKind((d - 1) as i64);
            &&& 0 <= d
            &&& d == 0 ==> x == m.origin.x && y == m.origin.y
            &&& d > 0 ==> m.at(x - 1, y) == nearer || m.at(x + 1, y) == nearer || m.at(x, y - 1)
                == nearer || m.at(x, y + 1) == nearer
        },
        _ => true,
    }
}

/// Whether every open cell is rooted.
pub open spec fn all_rooted(m: MazeView) -> bool {
    forall|x: int, y: int| #[trigger] rooted(m, x, y)
}

/// Whether nothing is left undecided on the grid.
pub open spec fn resolved(m: MazeView) -> bool {
    forall|x: int, y: int| m.inside(x, y) ==> #[trigger] m.at(x, y) != CellKind::Undefined
}

/// Whether the end is an open cell that holds the maze's length, and no open
/// cell holds more: read as a share of the length, the end stands at 1 and
/// nothing stands higher.
pub open spec fn peaked(m: MazeView) -> bool {
    &&& m.kind(m.end) == CellKind::PathKind(m.len as i64)
    &&& forall|x: int, y: int|
        #![trigger m.at(x, y)]
        m.at(x, y) matches CellKind::PathKind(d) ==> d <= m.len
}

/// Whether the open cells are one component: a walk leads from the origin to
/// each of them.
pub open spec fn connected(m: MazeView) -> bool {
    forall|x: int, y: int|
        #![trigger m.at(x, y)]
        is_path(m.at(x, y)) ==> linked(m, (m.origin.x as int, m.origin.y as int), (x, y))
}

/// Whether generation has come to its end on `m`: nothing is undecided, a
/// walk leads from the origin, which stands at 0 steps, to every open cell,
/// each open cell away from the origin holds one step more than one of its
/// neighbours, and the counts are to be read as shares of the maze's length.
pub open spec fn generated(m: MazeView) -> bool {
    &&& m.shaped()
    &&& resolved(m)
    &&& all_rooted(m)
    &&& connected(m)
    &&& m.kind(m.origin) == CellKind::PathKind(0)
    &&& m.scale == Scale::Length
}

/// Whether every room of the grid is open.
pub open spec fn all_rooms_open(m: MazeView) -> bool {
    forall|x: int, y: int|
        m.inside(x, y) && is_room(x, y) ==> is_path(#[trigger] m.at(x, y))
}

/// Whether the open rooms are one more than the open slots: with the maze in
/// one piece, no walk goes round in a circle.
pub open spec fn tree_shaped(m: MazeView) -> bool {
    m.count(open_rooms()) == m.count(open_slots()) + 1
}

/// Whether `n` has undone nothing of `m`: what was decided is decided, and
/// what was open is open.
pub open spec fn settled(m: MazeView, n: MazeView) -> bool {
    forall|x: int, y: int|
        #![trigger n.at(x, y)]
        (m.at(x, y) != CellKind::Undefined ==> n.at(x, y) != CellKind::Undefined) && (is_path(
            m.at(x, y),
        ) ==> is_path(n.at(x, y)))
}

/// Whether every open cell of `m` holds in `n` what it held in `m`.
pub open spec fn counts_kept(m: MazeView, n: MazeView) -> bool {
    forall|x: int, y: int| #![trigger n.at(x, y)] is_path(m.at(x, y)) ==> n.at(x, y) == m.at(x, y)
}

/// A walk read backwards is a walk.
pub proof fn lemma_walk_reverse(m: MazeView, s: Seq<(int, int)>)
    requires
        is_walk(m, s),
    ensures
        is_walk(m, s.reverse()),
        s.reverse().first() == s.last(),
        s.reverse().last() == s.first(),
{
    let r = s.reverse();
    assert forall|i: int| 0 <= i < r.len() implies is_path(m.at((#[trigger] r[i]).0, r[i].1)) by {
        assert(r[i] == s[s.len() - 1 - i]);
    }
    assert forall|i: int| 0 <= i < r.len() - 1 implies adjacent(#[trigger] r[i], r[i + 1]) by {
        assert(r[i] == s[s.len() - 1 - i]);
        assert(r[i + 1] == s[s.len() - 2 - i]);
        assert(adjacent(s[s.len() - 2 - i], s[s.len() - 2 - i + 1]));
    }
}

/// Two walks, the second starting where the first ends, make one walk.
pub proof fn lemma_walk_join(m: MazeView, s: Seq<(int, int)>, t: Seq<(int, int)>)
    requires
        is_walk(m, s),
        is_walk(m, t),
        s.last() == t.first(),
    ensures
        is_walk(m, s + t.drop_first()),
        (s + t.drop_first()).first() == s.first(),
        (s + t.drop_first()).last() == t.last(),
{
    let u = s + t.drop_first();
    assert forall|i: int| 0 <= i < u.len() implies is_path(m.at((#[trigger] u[i]).0, u[i].1)) by {
        if i < s.len() {
            assert(u[i] == s[i]);
        } else {
            assert(u[i] == t[i - s.len() + 1]);
        }
    }
    assert forall|i: int| 0 <= i < u.len() - 1 implies adjacent(#[trigger] u[i], u[i + 1]) by {
        if i + 1 < s.len() {
            assert(u[i] == s[i] && u[i + 1] == s[i + 1]);
            assert(adjacent(s[i], s[i + 1]));
        } else if i + 1 == s.len() {
            assert(u[i] == s[i] && u[i + 1] == t[1]);
            assert(s[i] == t[0]);
            assert(adjacent(t[0int], t[0int + 1]));
        } else {
            let j = i - s.len() + 1;
            assert(u[i] == t[j] && u[i + 1] == t[j + 1]);
            assert(adjacent(t[j], t[j + 1]));
        }
    }
    if t.len() == 1 {
        assert(u =~= s);
    } else {
        assert(u.last() == t[t.len() - 1]);
    }
}

/// Being linked goes both ways and carries over.
pub proof fn lemma_linked(m: MazeView, a: (int, int), b: (int, int), c: (int, int))
    requires
        linked(m, a, b),
        linked(m, a, c),
    ensures
        linked(m, b, a),
        linked(m, b, c),
{
    let s = choose|s: Seq<(int, int)>| is_walk(m, s) && #[trigger] s.first() == a && s.last() == b;
    let t = choose|t: Seq<(int, int)>| is_walk(m, t) && #[trigger] t.first() == a && t.last() == c;
    lemma_walk_reverse(m, s);
    let r = s.reverse();
    assert(r.first() == b);
    lemma_walk_join(m, r, t);
    let u = r + t.drop_first();
    assert(u.first() == b);
}

/// In a maze whose open cells are all rooted, a walk leads from the origin to
/// the open cell `(x, y)`: from cell to cell, each one step nearer.
pub proof fn lemma_rooted_linked(m: MazeView, x: int, y: int, d: i64)
    requires
        all_rooted(m),
        m.at(x, y) == CellKind::PathKind(d),
    ensures
        linked(m, (m.origin.x as int, m.origin.y as int), (x, y)),
    decreases d,
{
    assert(rooted(m, x, y));
    let o = (m.origin.x as int, m.origin.y as int);
    if d == 0 {
        let s = seq![(x, y)];
        assert(is_walk(m, s));
        assert(s.first() == o && s.last() == (x, y));
    } else {
        let nearer = CellKind::PathKind((d - 1) as i64);
        let n: (int, int) = if m.at(x - 1, y) == nearer {
            (x - 1, y)
        } else if m.at(x + 1, y) == nearer {
            (x + 1, y)
        } else if m.at(x, y - 1) == nearer {
            (x, y - 1)
        } else {
            (x, y + 1)
        };
        lemma_rooted_linked(m, n.0, n.1, (d - 1) as i64);
        let s = choose|s: Seq<(int, int)>| is_walk(m, s) && #[trigger] s.first() == o && s.last() == n;
        let t = s.push((x, y));
        assert forall|i: int| 0 <= i < t.len() implies is_path(m.at((#[trigger] t[i]).0, t[i].1)) by {
            if i < s.len() {
                assert(t[i] == s[i]);
            }
        }
        assert forall|i: int| 0 <= i < t.len() - 1 implies adjacent(#[trigger] t[i], t[i + 1]) by {
            if i + 1 < s.len() {
                assert(t[i] == s[i] && t[i + 1] == s[i + 1]);
                assert(adjacent(s[i], s[i + 1]));
            } else {
                assert(t[i] == s[s.len() - 1]);
            }
        }
        assert(t.first() == s[0]);
        assert(is_walk(m, t) && t.first() == o && t.last() == (x, y));
    }
}

/// A maze whose open cells are all rooted is connected.
pub proof fn lemma_rooted_connected(m: MazeView)
    requires
        all_rooted(m),
    ensures
        connected(m),
{
    assert forall|x: int, y: int| #![trigger m.at(x, y)] is_path(m.at(x, y)) implies linked(
        m,
        (m.origin.x as int, m.origin.y as int),
        (x, y),
    ) by {
        lemma_rooted_linked(m, x, y, m.at(x, y)->PathKind_0);
    }
}

/// In a connected maze a walk leads from any open cell to any other.
pub proof fn lemma_connected_any(m: MazeView, a: (int, int), b: (int, int))
    requires
        connected(m),
        is_path(m.at(a.0, a.1)),
        is_path(m.at(b.0, b.1)),
    ensures
        linked(m, a, b),
{
    let o = (m.origin.x as int, m.origin.y as int);
    let ka = m.at(a.0, a.1);
    let kb = m.at(b.0, b.1);
    lemma_linked(m, o, a, b);
}

/// An open cell away from the origin has a neighbour one step nearer to it.
pub open spec fn parented(m: MazeView, x: int, y: int) -> bool {
    match m.at(x, y) {
        CellKind::PathKind(d) => d > 0 ==> {
            let nearer = CellKind::PathKind((d - 1) as i64);
            m.at(x - 1, y) == nearer || m.at(x + 1, y) == nearer || m.at(x, y - 1) == nearer
                || m.at(x, y + 1) == nearer
        },
        _ => true,
    }
}

/// A walk in one maze is a walk in another that has every open cell of the
/// first open.
pub proof fn lemma_linked_mono(m: MazeView, n: MazeView, a: (int, int), b: (int, int))
    requires
        linked(m, a, b),
        forall|x: int, y: int| is_path(#[trigger] m.at(x, y)) ==> is_path(n.at(x, y)),
    ensures
        linked(n, a, b),
{
    let s = choose|s: Seq<(int, int)>| is_walk(m, s) && #[trigger] s.first() == a && s.last() == b;
    assert forall|i: int| 0 <= i < s.len() implies is_path(n.at((#[trigger] s[i]).0, s[i].1)) by {
        assert(is_path(m.at(s[i].0, s[i].1)));
    }
    assert(is_walk(n, s) && s.first() == a && s.last() == b);
}

/// An open cell is linked to itself.
pub proof fn lemma_linked_self(m: MazeView, a: (int, int))
    requires
        is_path(m.at(a.0, a.1)),
    ensures
        linked(m, a, a),
{
    let s = seq![a];
    assert(is_walk(m, s) && s.first() == a && s.last() == a);
}

/// Two open cells one step apart are linked.
pub proof fn lemma_linked_pair(m: MazeView, a: (int, int), b: (int, int))
    requires
        is_path(m.at(a.0, a.1)),
        is_path(m.at(b.0, b.1)),
        adjacent(a, b),
    ensures
        linked(m, a, b),
{
    let s = seq![a, b];
    assert(is_walk(m, s) && s.first() == a && s.last() == b);
}

/// Being linked carries over from cell to cell.
pub proof fn lemma_linked_chain(m: MazeView, a: (int, int), b: (int, int), c: (int, int))
    requires
        linked(m, a, b),
        linked(m, b, c),
    ensures
        linked(m, a, c),
{
    lemma_linked(m, a, b, b);
    lemma_linked(m, b, a, c);
}

/// A walk from `o` to another cell can be cut so as not to come back to `o`.
pub proof fn lemma_walk_trim(m: MazeView, s: Seq<(int, int)>, o: (int, int)) -> (t: Seq<(int, int)>)
    requires
        is_walk(m, s),
        s.first() == o,
    ensures
        is_walk(m, t),
        t.first() == o,
        t.last() == s.last(),
        forall|i: int| 1 <= i < t.len() ==> #[trigger] t[i] != o,
    decreases s.len(),
{
    if exists|i: int| 1 <= i < s.len() && #[trigger] s[i] == o {
        let i = choose|i: int| 1 <= i < s.len() && #[trigger] s[i] == o;
        let u = s.subrange(i, s.len() as int);
        assert forall|j: int| 0 <= j < u.len() implies is_path(m.at((#[trigger] u[j]).0, u[j].1)) by {
            assert(u[j] == s[i + j]);
        }
        assert forall|j: int| 0 <= j < u.len() - 1 implies adjacent(#[trigger] u[j], u[j + 1]) by {
            assert(u[j] == s[i + j] && u[j + 1] == s[i + j + 1]);
            assert(adjacent(s[i + j], s[i + j + 1]));
        }
        assert(u.first() == s[i]);
        assert(u.last() == s[s.len() - 1]);
        lemma_walk_trim(m, u, o)
    } else {
        s
    }
}

} // verus!
