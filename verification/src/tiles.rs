//! Sizes in tiles and in pixels.

use crate::geometry::{Coord, Geometry};
use crate::maze::{lemma_row_major, CellKind};
use vstd::prelude::*;

verus! {

/// The greatest power of two that is not above `q`; 1 where `q` is 0.
pub open spec fn half_power(q: nat) -> nat
    decreases q,
{
    if q <= 1 {
        1
    } else {
        2 * half_power(q / 2)
    }
}

/// 2 to the number of times `m` can be halved before it is 0.
pub open spec fn doublings(m: nat) -> nat
    decreases m,
{
    if m == 0 {
        1
    } else {
        2 * doublings(m / 2)
    }
}

/// Halving first and doubling for each further halving gives the greatest
/// power of two not above the number.
pub proof fn lemma_doublings(q: nat)
    ensures
        half_power(q) == doublings(q / 2),
    decreases q,
{
    if q > 1 {
        lemma_doublings(q / 2);
    }
}

/// The greatest power of two not above `q` is not above `q`, unless `q` is 0,
/// and its double is above `q`.
pub proof fn lemma_half_power(q: nat)
    ensures
        1 <= half_power(q),
        q >= 1 ==> half_power(q) <= q,
        q < 2 * half_power(q),
    decreases q,
{
    if q > 1 {
        lemma_half_power(q / 2);
    }
}

/// The side of the largest square made of 7 by 7 tiles, with a power of two of
/// them on each side, that fits in `n` pixels; 7 where not even one tile fits.
pub fn square_ceil_7(n: u32) -> (side: u32)
    ensures
        side == 7 * half_power((n / 7) as nat),
        side <= n || side == 7,
{
    let q = n / 7;
    let mut r: u32 = 1;
    let mut m: u32 = q;
    assert(m >> 1 == m / 2) by (bit_vector);
    m = m >> 1;
    proof {
        lemma_doublings(q as nat);
        lemma_half_power(q as nat);
    }
    while m > 0
        invariant
            half_power(q as nat) == r * doublings(m as nat),
            half_power(q as nat) <= q || half_power(q as nat) == 1,
            q <= u32::MAX / 7,
            r >= 1,
        decreases m,
    {
        assert(m >> 1 == m / 2) by (bit_vector);
        proof {
            let t = doublings((m / 2) as nat);
            assert(doublings(m as nat) == 2 * t);
            assert(r * (2 * t) == (2 * r) * t) by (nonlinear_arith);
            assert(t >= 1) by {
                lemma_doublings_pos((m / 2) as nat);
            }
            assert(2 * r <= (2 * r) * t) by (nonlinear_arith)
                requires
                    t >= 1,
                    r >= 1,
            ;
        }
        assert(r << 1 == r * 2) by (bit_vector)
            requires
                r <= 0x7fff_ffff,
        ;
        r = r << 1;
        m = m >> 1;
    }
    proof {
        assert(doublings(0) == 1);
        assert(r * 1 == r) by (nonlinear_arith);
    }
    r * 7
}

/// A number of doublings is at least 1.
pub proof fn lemma_doublings_pos(m: nat)
    ensures
        doublings(m) >= 1,
    decreases m,
{
    if m > 0 {
        lemma_doublings_pos(m / 2);
    }
}

/// The size in tiles of the largest grid that fits in an image of size `g`.
pub fn grid_geometry(tile_size: usize, g: &Geometry) -> (r: Geometry)
    requires
        tile_size > 0,
    ensures
        r.width == g.width / tile_size,
        r.height == g.height / tile_size,
{
    Geometry { width: g.width / tile_size, height: g.height / tile_size }
}

/// The size in pixels of the image of a grid of size `g`; none where the
/// machine cannot hold it.
pub fn image_geometry(tile_size: usize, g: &Geometry) -> (r: Option<Geometry>)
    ensures
        match r {
            Some(i) => i.width == g.width * tile_size && i.height == g.height * tile_size,
            None => g.width * tile_size > usize::MAX || g.height * tile_size > usize::MAX,
        },
{
    match (g.width.checked_mul(tile_size), g.height.checked_mul(tile_size)) {
        (Some(w), Some(h)) => Some(Geometry { width: w, height: h }),
        _ => None,
    }
}

/// The pixel at `(px, py)` of an image `width` pixels wide, stored row by row.
pub open spec fn pixel(buffer: Seq<u8>, width: int, px: int, py: int) -> u8 {
    buffer[py * width + px]
}

/// Whether the pixel `(px, py)` lies in the tile of the cell `c`, the tiles
/// being `tile` pixels wide and high.
pub open spec fn in_tile(c: Coord, tile: int, px: int, py: int) -> bool {
    c.x * tile <= px < (c.x + 1) * tile && c.y * tile <= py < (c.y + 1) * tile
}

/// Fills the tile of the cell `c` with the colour `color_idx`, in an image
/// `width` pixels wide that is stored row by row in `buffer`.
pub fn draw_cell_plain_gif(
    tile_size: usize,
    width: usize,
    buffer: &mut Vec<u8>,
    c: &Coord,
    color_idx: u8,
)
    requires
        (c.x + 1) * tile_size <= width,
        (c.y + 1) * tile_size * width <= old(buffer).len(),
    ensures
        final(buffer).len() == old(buffer).len(),
        forall|px: int, py: int|
            0 <= px < width && 0 <= py && py * width + px < old(buffer).len() ==> #[trigger] pixel(
                final(buffer)@,
                width as int,
                px,
                py,
            ) == if in_tile(*c, tile_size as int, px, py) {
                color_idx
            } else {
                pixel(old(buffer)@, width as int, px, py)
            },
{
    let ghost before = buffer@;
    let ghost w = width as int;
    let ghost t = tile_size as int;
    let ghost rows = (c.y + 1) * t;
    proof {
        assert(0 <= c.x * t <= (c.x + 1) * t) by (nonlinear_arith)
            requires
                0 <= t,
                0 <= c.x,
        ;
        assert(0 <= c.y * t <= (c.y + 1) * t) by (nonlinear_arith)
            requires
                0 <= t,
                0 <= c.y,
        ;
        assert((c.x + 1) * t == c.x * t + t) by (nonlinear_arith);
        assert((c.y + 1) * t == c.y * t + t) by (nonlinear_arith);
    }
    if tile_size == 0 {
        return ;
    }
    proof {
        assert(w >= 1);
        assert(rows <= rows * w) by (nonlinear_arith)
            requires
                w >= 1,
                rows >= 0,
        ;
    }
    let x0 = c.x * tile_size;
    let y0 = c.y * tile_size;
    let mut i: usize = 0;
    while i < tile_size
        invariant
            i <= tile_size,
            0 < tile_size,
            t == tile_size,
            w == width,
            x0 == c.x * t,
            y0 == c.y * t,
            x0 + t <= w,
            rows == y0 + t,
            rows * w <= before.len(),
            buffer.len() == before.len(),
            forall|px: int, py: int|
                0 <= px < w && 0 <= py && py * w + px < before.len() ==> #[trigger] pixel(
                    buffer@,
                    w,
                    px,
                    py,
                ) == if x0 <= px < x0 + i && y0 <= py < y0 + t {
                    color_idx
                } else {
                    pixel(before, w, px, py)
                },
        decreases tile_size - i,
    {
        let mut j: usize = 0;
        while j < tile_size
            invariant
                j <= tile_size,
                i < tile_size,
                t == tile_size,
                w == width,
                x0 == c.x * t,
                y0 == c.y * t,
                x0 + t <= w,
                rows == y0 + t,
                rows * w <= before.len(),
                buffer.len() == before.len(),
                forall|px: int, py: int|
                    0 <= px < w && 0 <= py && py * w + px < before.len() ==> #[trigger] pixel(
                        buffer@,
                        w,
                        px,
                        py,
                    ) == if (x0 <= px < x0 + i && y0 <= py < y0 + t) || (px == x0 + i && y0 <= py < y0
                        + j) {
                        color_idx
                    } else {
                        pixel(before, w, px, py)
                    },
            decreases tile_size - j,
        {
            let ghost prev = buffer@;
            proof {
                lemma_row_major(w, rows, x0 + i, y0 + j);
                assert(w * rows == rows * w) by (nonlinear_arith);
            }
            let at = (x0 + i) + (y0 + j) * width;
            buffer.set(at, color_idx);
            proof {
                assert forall|px: int, py: int|
                    0 <= px < w && 0 <= py && py * w + px < before.len() implies #[trigger] pixel(
                    buffer@,
                    w,
                    px,
                    py,
                ) == if (x0 <= px < x0 + i && y0 <= py < y0 + t) || (px == x0 + i && y0 <= py < y0 + j
                    + 1) {
                    color_idx
                } else {
                    pixel(before, w, px, py)
                } by {
                    assert(pixel(prev, w, px, py) == if (x0 <= px < x0 + i && y0 <= py < y0 + t) || (px
                        == x0 + i && y0 <= py < y0 + j) {
                        color_idx
                    } else {
                        pixel(before, w, px, py)
                    });
                    if py * w + px == at {
                        lemma_position(w, px, py, x0 + i, y0 + j);
                    }
                }
            }
            j = j + 1;
        }
        i = i + 1;
    }
}

/// Two pixels of one image that are stored at one place are one pixel.
pub proof fn lemma_position(width: int, px: int, py: int, qx: int, qy: int)
    requires
        0 <= px < width,
        0 <= qx < width,
        0 <= py,
        0 <= qy,
        py * width + px == qy * width + qx,
    ensures
        px == qx,
        py == qy,
{
    lemma_row_major(width, py + 1, px, py);
    lemma_row_major(width, qy + 1, qx, qy);
}

/// The mosaic: each cell is a tile of five by five pixels in shades of grey,
/// light for open cells and dark for walls, or the other way round.
#[derive(Debug, Clone, Copy, PartialEq, Eq, Structural)]
pub struct RendererMosaic {
    pub is_inverted: bool,
}

/// The two sets of tiles of the mosaic.
#[derive(Debug, Clone, Copy, PartialEq, Eq, Structural)]
pub enum Shade {
    Dark,
    Light,
}

impl RendererMosaic {
    /// The side of a tile, in pixels.
    pub fn tile_size(&self) -> (n: usize)
        ensures
            n == 5,
    {
        5
    }

    /// The set from which the tile of a cell is taken: light for an open cell
    /// and dark for a wall, or the other way round where the mosaic is
    /// inverted; none for a cell at which nothing is decided.
    pub fn shade(&self, cell_kind: &CellKind) -> (s: Option<Shade>)
        ensures
            s == match *cell_kind {
                CellKind::PathKind(_) => Some(
                    if self.is_inverted {
                        Shade::Dark
                    } else {
                        Shade::Light
                    },
                ),
                CellKind::WallKind => Some(
                    if self.is_inverted {
                        Shade::Light
                    } else {
                        Shade::Dark
                    },
                ),
                CellKind::Undefined => None::<Shade>,
            },
    {
        match *cell_kind {
            CellKind::PathKind(_) => if self.is_inverted {
                Some(Shade::Dark)
            } else {
                Some(Shade::Light)
            },
            CellKind::WallKind => if self.is_inverted {
                Some(Shade::Light)
            } else {
                Some(Shade::Dark)
            },
            CellKind::Undefined => None,
        }
    }

    /// Which colour of a tile goes at the offset `(dx, dy)` in it: the first
    /// along the left and the upper edge, the second everywhere else.
    pub fn colour_at(dx: u32, dy: u32) -> (i: usize)
        ensures
            i == if dx == 0 || dy == 0 {
                0usize
            } else {
                1usize
            },
    {
        if dx == 0 || dy == 0 {
            0
        } else {
            1
        }
    }
}

/// Whether bit `n` of `number` is set.
pub open spec fn bit(number: u16, n: nat) -> bool {
    (number as nat / vstd::arithmetic::power2::pow2(n)) % 2 == 1
}

/// Whether the invader with the number `number` shows at the offset
/// `(dx, dy)` of its tile of seven by seven pixels: in the rows 1 to 5, the
/// columns 1 to 3 show where bit `dx * dy` of the number is set, and the
/// columns 3 to 5 mirror them.
pub open spec fn invader_shows(number: u16, dx: int, dy: int) -> bool {
    1 <= dy <= 5 && ((1 <= dx <= 3 && bit(number, (dx * dy) as nat)) || (3 <= dx <= 5 && bit(
        number,
        ((6 - dx) * dy) as nat,
    )))
}

/// Whether bit `n` of `number` is set, for `n` under 16.
pub fn bit_is_set(number: u16, n: u32) -> (b: bool)
    requires
        n < 16,
    ensures
        b == bit(number, n as nat),
{
    let shifted: u16 = number >> n;
    proof {
        lemma_shift_is_division(number, n);
    }
    shifted % 2 == 1
}

/// Shifting a number right by `n` bits divides it by 2 to the `n`.
pub proof fn lemma_shift_is_division(number: u16, n: u32)
    requires
        n < 16,
    ensures
        (number >> n) as nat == number as nat / vstd::arithmetic::power2::pow2(n as nat),
{
    vstd::bits::lemma_u16_shr_is_div(number, n as u16);
}

/// Whether the invader with the number `number` shows at the offset
/// `(dx, dy)` of its tile.
pub fn invader_pixel(number: u16, dx: u32, dy: u32) -> (b: bool)
    ensures
        b == invader_shows(number, dx as int, dy as int),
{
    if dy < 1 || dy > 5 {
        return false;
    }
    let left = if dx >= 1 && dx <= 3 {
        assert(dx * dy <= 15) by (nonlinear_arith)
            requires
                dx <= 3,
                dy <= 5,
        ;
        bit_is_set(number, dx * dy)
    } else {
        false
    };
    let right = if dx >= 3 && dx <= 5 {
        assert((6 - dx) * dy <= 15) by (nonlinear_arith)
            requires
                3 <= dx <= 5,
                dy <= 5,
        ;
        bit_is_set(number, (6 - dx) * dy)
    } else {
        false
    };
    left || right
}

} // verus!
