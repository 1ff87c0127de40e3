//! The two lists of candidate walls, and how one wall is taken out of them.

use crate::dice::{pick_index, random_u64, share, under_bias};
use crate::geometry::Coord;
use vstd::prelude::*;

verus! {

/// The walls of `walls` that go to the list of vertical candidates.
pub open spec fn vertical_part(walls: Seq<Coord>) -> Seq<Coord> {
    walls.filter(|w: Coord| w.x % 2 == 0)
}

/// The walls of `walls` that go to the list of horizontal candidates.
pub open spec fn horizontal_part(walls: Seq<Coord>) -> Seq<Coord> {
    walls.filter(|w: Coord| w.x % 2 != 0 && w.y % 2 == 0)
}

/// Appends each of `new_walls` to the list it belongs to: those on an even
/// column to `vwalls`, of the others those on an even row to `hwalls`. A wall on
/// an odd column and an odd row is dropped.
pub fn add_walls(vwalls: &mut Vec<Coord>, hwalls: &mut Vec<Coord>, new_walls: Vec<Coord>)
    ensures
        final(vwalls)@ == old(vwalls)@ + vertical_part(new_walls@),
        final(hwalls)@ == old(hwalls)@ + horizontal_part(new_walls@),
{
    let mut i: usize = 0;
    proof {
        reveal(Seq::filter);
        assert(new_walls@.take(0) =~= Seq::<Coord>::empty());
    }
    while i < new_walls.len()
        invariant
            i <= new_walls.len(),
            vwalls@ == old(vwalls)@ + vertical_part(new_walls@.take(i as int)),
            hwalls@ == old(hwalls)@ + horizontal_part(new_walls@.take(i as int)),
        decreases new_walls.len() - i,
    {
        let w = new_walls[i];
        proof {
            reveal(Seq::filter);
            assert(new_walls@.take(i + 1).drop_last() =~= new_walls@.take(i as int));
        }
        if w.x % 2 == 0 {
            vwalls.push(w);
        } else if w.y % 2 == 0 {
            hwalls.push(w);
        }
        i = i + 1;
    }
    proof {
        assert(new_walls@.take(new_walls.len() as int) =~= new_walls@);
    }
}

/// The list `s` after its item `i` was taken out and the last item put in its
/// place.
pub open spec fn swap_removed(s: Seq<Coord>, i: int) -> Seq<Coord> {
    s.update(i, s.last()).drop_last()
}

/// Whether the next wall comes from the vertical candidates: when there are no
/// others, or when there are both and `side` falls under the bias.
pub open spec fn takes_vertical(vlen: nat, hlen: nat, side: u64, bias: int) -> bool {
    vlen != 0 && (hlen == 0 || share(side) < bias)
}

/// What is left of the two lists, and the wall taken out, for the given draws.
pub open spec fn taken(vwalls: Seq<Coord>, hwalls: Seq<Coord>, pick: u64, side: u64, bias: int) -> (
    Coord,
    Seq<Coord>,
    Seq<Coord>,
) {
    if takes_vertical(vwalls.len(), hwalls.len(), side, bias) {
        let i = pick as int % vwalls.len() as int;
        (vwalls[i], swap_removed(vwalls, i), hwalls)
    } else {
        let i = pick as int % hwalls.len() as int;
        (hwalls[i], vwalls, swap_removed(hwalls, i))
    }
}

/// Takes one wall out of the two lists: from the only list that has any, or,
/// when both have, from `vwalls` if `side` falls under `bias` and else from
/// `hwalls`; in that list, the item that `pick` picks. The last item of the list
/// takes its place.
pub fn take_wall(
    vwalls: &mut Vec<Coord>,
    hwalls: &mut Vec<Coord>,
    pick: u64,
    side: u64,
    bias: u64,
) -> (w: Coord)
    requires
        old(vwalls).len() + old(hwalls).len() > 0,
    ensures
        (w, final(vwalls)@, final(hwalls)@) == taken(
            old(vwalls)@,
            old(hwalls)@,
            pick,
            side,
            bias as int,
        ),
{
    if vwalls.len() == 0 {
        let pos = pick_index(pick, hwalls.len());
        hwalls.swap_remove(pos)
    } else if hwalls.len() == 0 {
        let pos = pick_index(pick, vwalls.len());
        vwalls.swap_remove(pos)
    } else if under_bias(side, bias) {
        let pos = pick_index(pick, vwalls.len());
        vwalls.swap_remove(pos)
    } else {
        let pos = pick_index(pick, hwalls.len());
        hwalls.swap_remove(pos)
    }
}

/// Takes one wall out of the two lists at random: see `take_wall`. The side
/// is drawn only when both lists have walls.
pub fn pop_random_wall(vwalls: &mut Vec<Coord>, hwalls: &mut Vec<Coord>, vertical_bias: u64) -> (w:
    Coord)
    requires
        old(vwalls).len() + old(hwalls).len() > 0,
    ensures
        exists|pick: u64, side: u64|
            (w, final(vwalls)@, final(hwalls)@) == taken(
                old(vwalls)@,
                old(hwalls)@,
                pick,
                side,
                vertical_bias as int,
            ),
{
    let pick = random_u64();
    let side = if vwalls.len() > 0 && hwalls.len() > 0 {
        random_u64()
    } else {
        0
    };
    take_wall(vwalls, hwalls, pick, side, vertical_bias)
}

} // verus!
