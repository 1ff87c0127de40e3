//! The grid of a maze and the primitives that read and write it.
//!
//! A maze lives on a doubled lattice: positions with two even coordinates are
//! rooms, positions with exactly one odd coordinate are the slots between two
//! rooms, and positions with two odd coordinates are corners that stay closed.

use crate::geometry::{Coord, Direction, Geometry};
use crate::lattice::is_corner;
use vstd::arithmetic::div_mod::{
    lemma_fundamental_div_mod, lemma_fundamental_div_mod_converse, lemma_mod_pos_bound,
};
use vstd::prelude::*;

verus! {

/// What one position of the grid holds.
#[derive(Debug, Clone, Copy, PartialEq, Eq, Structural)]
pub enum CellKind {
    /// Closed for good.
    WallKind,
    /// Open; the number is read as the maze's `Scale` says.
    PathKind(i64),
    /// Not decided yet.
    Undefined,
}

/// How the number in a path cell is to be read.
#[derive(Debug, Clone, Copy, PartialEq, Eq, Structural)]
pub enum Scale {
    /// A count of steps or, while components are being joined, a label.
    Steps,
    /// A count of steps from the origin, as a share of the maze's length:
    /// the cell stands at the number divided by `len`.
    Length,
    /// A count of steps away from the solution, on a logarithmic scale whose
    /// top is the given count: a positive number `d` stands at
    /// `log(d) / log(top)`, any other number stands for itself.
    Solution(i64),
}

/// Why a maze cannot be built.
#[derive(Debug, Clone, Copy, PartialEq, Eq, Structural)]
pub enum ConfigError {
    /// The width or the height is zero.
    EmptyGrid,
    /// The grid has more cells than `MAX_CELLS`, or than the machine can count.
    GridTooLarge,
    /// The bias is not strictly between 0 and `BIAS_RANGE`.
    BiasOutOfRange,
    /// The origin lies outside the grid.
    OriginOutOfRange,
}

/// The largest number of cells a grid may have.
pub const MAX_CELLS: u64 = 0x4000_0000_0000_0000;

/// The vertical bias is a count out of this many: a bias of `b` stands for the
/// probability `b / BIAS_RANGE`.
pub const BIAS_RANGE: u64 = 0x20_0000_0000_0000;

/// The number stored in a path cell that no walk has reached yet.
pub const UNVISITED: i64 = -1;

/// The mathematical content of a `Maze`.
#[verifier::ext_equal]
pub ghost struct MazeView {
    pub width: int,
    pub height: int,
    pub grid: Map<(int, int), CellKind>,
    pub bias: int,
    pub origin: Coord,
    pub end: Coord,
    pub len: int,
    pub scale: Scale,
}

impl MazeView {
    /// Whether `(x, y)` is a position of the grid.
    pub open spec fn inside(self, x: int, y: int) -> bool {
        0 <= x < self.width && 0 <= y < self.height
    }

    /// What `(x, y)` holds; outside the grid nothing is decided.
    pub open spec fn at(self, x: int, y: int) -> CellKind {
        if self.inside(x, y) {
            self.grid[(x, y)]
        } else {
            CellKind::Undefined
        }
    }

    /// Whether `c` is a position of the grid.
    pub open spec fn holds(self, c: Coord) -> bool {
        self.inside(c.x as int, c.y as int)
    }

    /// What `c` holds.
    pub open spec fn kind(self, c: Coord) -> CellKind {
        self.at(c.x as int, c.y as int)
    }

    /// The same maze with `k` at `c`.
    pub open spec fn put(self, c: Coord, k: CellKind) -> MazeView {
        MazeView { grid: self.grid.insert((c.x as int, c.y as int), k), ..self }
    }

    /// The same maze with `end` and `len` moved to `c` and `d` if `d` is
    /// strictly longer than the longest path known.
    pub open spec fn stretch(self, c: Coord, d: int) -> MazeView {
        if self.len < d {
            MazeView { end: c, len: d, ..self }
        } else {
            self
        }
    }

    /// Whether `other` is a maze on the same grid, with the same origin and
    /// the same bias.
    pub open spec fn same_frame(self, other: MazeView) -> bool {
        &&& other.width == self.width
        &&& other.height == self.height
        &&& other.origin == self.origin
        &&& other.bias == self.bias
    }

    /// The same maze read on another scale.
    pub open spec fn read_as(self, scale: Scale) -> MazeView {
        MazeView { scale: scale, ..self }
    }

    /// The frame every maze keeps: a grid of the stated size, a bias in range,
    /// an origin on a room and an end on the grid.
    pub open spec fn shaped(self) -> bool {
        &&& 1 <= self.width <= usize::MAX
        &&& 1 <= self.height <= usize::MAX
        &&& self.width * self.height <= MAX_CELLS
        &&& self.width * self.height <= usize::MAX
        &&& forall|x: int, y: int| #[trigger]
            self.grid.dom().contains((x, y)) <==> self.inside(x, y)
        &&& 0 < self.bias < BIAS_RANGE
        &&& self.holds(self.origin)
        &&& self.origin.x % 2 == 0
        &&& self.origin.y % 2 == 0
        &&& self.holds(self.end)
        &&& 0 <= self.len <= MAX_CELLS
    }

    /// The neighbour of `c` one step in direction `dir`, if the grid has one.
    pub open spec fn step(self, c: Coord, dir: Direction) -> Option<Coord> {
        match dir {
            Direction::Up => if c.y == 0 {
                None
            } else {
                Some(Coord { x: c.x, y: (c.y - 1) as usize })
            },
            Direction::Down => if c.y >= self.height - 1 {
                None
            } else {
                Some(Coord { x: c.x, y: (c.y + 1) as usize })
            },
            Direction::Left => if c.x == 0 {
                None
            } else {
                Some(Coord { x: (c.x - 1) as usize, y: c.y })
            },
            Direction::Right => if c.x >= self.width - 1 {
                None
            } else {
                Some(Coord { x: (c.x + 1) as usize, y: c.y })
            },
        }
    }

    /// The neighbour of `c` in direction `dir`, alone in a sequence, if the
    /// grid has one and nothing is decided there.
    pub open spec fn undefined_towards(self, c: Coord, dir: Direction) -> Seq<Coord> {
        match self.step(c, dir) {
            Some(n) => if self.kind(n) == CellKind::Undefined {
                seq![n]
            } else {
                Seq::empty()
            },
            None => Seq::empty(),
        }
    }

    /// The undecided neighbours of `c`: up, down, left, right.
    pub open spec fn undefined_around(self, c: Coord) -> Seq<Coord> {
        self.undefined_towards(c, Direction::Up) + self.undefined_towards(c, Direction::Down)
            + self.undefined_towards(c, Direction::Left) + self.undefined_towards(
            c,
            Direction::Right,
        )
    }

    /// The same maze with a wall at each position of `walls`.
    pub open spec fn wall_all(self, walls: Seq<Coord>) -> MazeView
        decreases walls.len(),
    {
        if walls.len() == 0 {
            self
        } else {
            self.wall_all(walls.drop_last()).put(walls.last(), CellKind::WallKind)
        }
    }

    /// The number of positions `(x, y)` of the grid whose content `k` meets
    /// `p(x, y, k)`.
    pub open spec fn count(self, p: spec_fn(int, int, CellKind) -> bool) -> nat {
        census(self.width, self.height, self.grid, p)
    }

    /// The same maze with a wall wherever nothing was decided: at every such
    /// position, or at the corners only.
    pub open spec fn sealed(self, corners_only: bool) -> MazeView {
        MazeView {
            grid: Map::new(
                |p: (int, int)| self.inside(p.0, p.1),
                |p: (int, int)|
                    if self.grid[p] == CellKind::Undefined && (!corners_only || is_corner(p.0, p.1)) {
                        CellKind::WallKind
                    } else {
                        self.grid[p]
                    },
            ),
            ..self
        }
    }

    /// Whether nothing has happened to the maze yet: nothing is decided, no
    /// path is known, and numbers are counts of steps.
    pub open spec fn pristine(self) -> bool {
        &&& forall|x: int, y: int| #[trigger] self.at(x, y) == CellKind::Undefined
        &&& self.len == 0
        &&& self.scale == Scale::Steps
    }

    /// A new maze of the given size: nothing decided, no path known.
    pub open spec fn blank(g: Geometry, bias: u64, origin: Coord) -> MazeView {
        MazeView {
            width: g.width as int,
            height: g.height as int,
            grid: Map::new(
                |p: (int, int)| 0 <= p.0 < g.width && 0 <= p.1 < g.height,
                |p: (int, int)| CellKind::Undefined,
            ),
            bias: bias as int,
            origin: Coord {
                x: (origin.x - origin.x % 2) as usize,
                y: (origin.y - origin.y % 2) as usize,
            },
            end: Coord { x: (g.width - 1) as usize, y: (g.height - 1) as usize },
            len: 0,
            scale: Scale::Steps,
        }
    }
}

/// The first reason, if any, for which no maze can be built from these values.
pub open spec fn config_error(g: Geometry, bias: u64, origin: Coord) -> Option<ConfigError> {
    if g.width == 0 || g.height == 0 {
        Some(ConfigError::EmptyGrid)
    } else if g.width * g.height > MAX_CELLS || g.width * g.height > usize::MAX {
        Some(ConfigError::GridTooLarge)
    } else if bias == 0 || bias >= BIAS_RANGE {
        Some(ConfigError::BiasOutOfRange)
    } else if origin.x >= g.width || origin.y >= g.height {
        Some(ConfigError::OriginOutOfRange)
    } else {
        None
    }
}

/// The number of positions among the first `n` of a `width` wide grid, row by
/// row, whose content meets `p`.
pub closed spec fn tally(
    width: int,
    grid: Map<(int, int), CellKind>,
    p: spec_fn(int, int, CellKind) -> bool,
    n: int,
) -> nat
    decreases n,
{
    if n <= 0 {
        0
    } else {
        let x = (n - 1) % width;
        let y = (n - 1) / width;
        tally(width, grid, p, n - 1) + if p(x, y, grid[(x, y)]) {
            1nat
        } else {
            0nat
        }
    }
}

/// The number of positions of a `width` by `height` grid whose content meets `p`.
pub closed spec fn census(
    width: int,
    height: int,
    grid: Map<(int, int), CellKind>,
    p: spec_fn(int, int, CellKind) -> bool,
) -> nat {
    tally(width, grid, p, width * height)
}

/// 1 where `b` holds, else 0.
pub open spec fn unit(b: bool) -> int {
    if b {
        1
    } else {
        0
    }
}

/// Where the position `(x, y)` stands when the grid is read row by row.
pub proof fn lemma_row_major(width: int, height: int, x: int, y: int)
    requires
        0 <= x < width,
        0 <= y < height,
    ensures
        0 <= y * width + x < width * height,
        (y * width + x) % width == x,
        (y * width + x) / width == y,
{
    assert(y * width + x < width * height) by (nonlinear_arith)
        requires
            0 <= x < width,
            0 <= y < height,
    ;
    assert(0 <= y * width) by (nonlinear_arith)
        requires
            0 <= y,
            0 < width,
    ;
    lemma_fundamental_div_mod_converse(y * width + x, width, y, x);
}

/// Which position stands at place `i` when the grid is read row by row.
pub proof fn lemma_row_major_inverse(width: int, height: int, i: int)
    requires
        0 < width,
        0 <= i < width * height,
    ensures
        0 <= i % width < width,
        0 <= i / width < height,
        (i / width) * width + i % width == i,
{
    lemma_fundamental_div_mod(i, width);
    lemma_mod_pos_bound(i, width);
    let q = i / width;
    let r = i % width;
    assert(q * width == width * q) by (nonlinear_arith);
    assert(0 <= q < height) by (nonlinear_arith)
        requires
            0 < width,
            0 <= r < width,
            q * width + r == i,
            0 <= i < width * height,
    ;
}

/// Writing at a position changes the tally from that position on.
proof fn lemma_tally_put(
    width: int,
    height: int,
    grid: Map<(int, int), CellKind>,
    p: spec_fn(int, int, CellKind) -> bool,
    x: int,
    y: int,
    k: CellKind,
    n: int,
)
    requires
        0 <= x < width,
        0 <= y < height,
        0 <= n <= width * height,
    ensures
        tally(width, grid.insert((x, y), k), p, n) == tally(width, grid, p, n) + (if n > y * width
            + x {
            unit(p(x, y, k)) - unit(p(x, y, grid[(x, y)]))
        } else {
            0
        }),
    decreases n,
{
    if n > 0 {
        lemma_tally_put(width, height, grid, p, x, y, k, n - 1);
        lemma_row_major(width, height, x, y);
        lemma_row_major_inverse(width, height, n - 1);
    }
}

/// A tally over `n` positions is at most `n`.
proof fn lemma_tally_bound(
    width: int,
    grid: Map<(int, int), CellKind>,
    p: spec_fn(int, int, CellKind) -> bool,
    n: int,
)
    requires
        0 <= n,
    ensures
        tally(width, grid, p, n) <= n,
    decreases n,
{
    if n > 0 {
        lemma_tally_bound(width, grid, p, n - 1);
    }
}

/// Writing `k` at a position of the grid changes a count by what the old and
/// the new content weigh, and changes no other position.
pub proof fn lemma_count_put(m: MazeView, c: Coord, k: CellKind, p: spec_fn(int, int, CellKind) -> bool)
    requires
        m.shaped(),
        m.holds(c),
    ensures
        m.put(c, k).count(p) == m.count(p) + unit(p(c.x as int, c.y as int, k)) - unit(
            p(c.x as int, c.y as int, m.kind(c)),
        ),
{
    lemma_row_major(m.width, m.height, c.x as int, c.y as int);
    lemma_tally_put(
        m.width,
        m.height,
        m.grid,
        p,
        c.x as int,
        c.y as int,
        k,
        m.width * m.height,
    );
}

/// No count exceeds the number of cells.
pub proof fn lemma_count_bound(m: MazeView, p: spec_fn(int, int, CellKind) -> bool)
    requires
        m.shaped(),
    ensures
        m.count(p) <= m.width * m.height,
{
    assert(0 <= m.width * m.height) by (nonlinear_arith)
        requires
            0 <= m.width,
            0 <= m.height,
    ;
    lemma_tally_bound(m.width, m.grid, p, m.width * m.height);
}

/// Two grids and two conditions that agree position by position have equal
/// tallies.
proof fn lemma_tally_agree(
    width: int,
    height: int,
    g1: Map<(int, int), CellKind>,
    g2: Map<(int, int), CellKind>,
    p: spec_fn(int, int, CellKind) -> bool,
    q: spec_fn(int, int, CellKind) -> bool,
    n: int,
)
    requires
        0 < width,
        0 <= n <= width * height,
        forall|x: int, y: int|
            0 <= x < width && 0 <= y < height ==> #[trigger] p(x, y, g1[(x, y)]) == q(
                x,
                y,
                g2[(x, y)],
            ),
    ensures
        tally(width, g1, p, n) == tally(width, g2, q, n),
    decreases n,
{
    if n > 0 {
        lemma_tally_agree(width, height, g1, g2, p, q, n - 1);
        lemma_row_major_inverse(width, height, n - 1);
        let x = (n - 1) % width;
        let y = (n - 1) / width;
        assert(p(x, y, g1[(x, y)]) == q(x, y, g2[(x, y)]));
    }
}

/// Two mazes of one size, and two conditions, that agree position by position
/// have equal counts.
pub proof fn lemma_count_agree(
    m1: MazeView,
    m2: MazeView,
    p: spec_fn(int, int, CellKind) -> bool,
    q: spec_fn(int, int, CellKind) -> bool,
)
    requires
        m1.shaped(),
        m2.width == m1.width,
        m2.height == m1.height,
        forall|x: int, y: int|
            m1.inside(x, y) ==> #[trigger] p(x, y, m1.at(x, y)) == q(x, y, m2.at(x, y)),
    ensures
        m1.count(p) == m2.count(q),
{
    assert(0 <= m1.width * m1.height) by (nonlinear_arith)
        requires
            0 <= m1.width,
            0 <= m1.height,
    ;
    assert forall|x: int, y: int| 0 <= x < m1.width && 0 <= y < m1.height implies #[trigger] p(
        x,
        y,
        m1.grid[(x, y)],
    ) == q(x, y, m2.grid[(x, y)]) by {
        assert(m1.inside(x, y));
        assert(p(x, y, m1.at(x, y)) == q(x, y, m2.at(x, y)));
    }
    lemma_tally_agree(m1.width, m1.height, m1.grid, m2.grid, p, q, m1.width * m1.height);
}

/// Where no position meets a condition, its count is zero.
pub proof fn lemma_count_zero(m: MazeView, p: spec_fn(int, int, CellKind) -> bool)
    requires
        m.shaped(),
        forall|x: int, y: int| m.inside(x, y) ==> !#[trigger] p(x, y, m.at(x, y)),
    ensures
        m.count(p) == 0,
{
    let never = |x: int, y: int, k: CellKind| false;
    assert forall|x: int, y: int| m.inside(x, y) implies #[trigger] p(x, y, m.at(x, y)) == never(
        x,
        y,
        m.at(x, y),
    ) by {}
    lemma_count_agree(m, m, p, never);
    assert(0 <= m.width * m.height) by (nonlinear_arith)
        requires
            0 <= m.width,
            0 <= m.height,
    ;
    lemma_tally_never(m.width, m.grid, m.width * m.height);
}

/// The tally of what no position meets is zero.
proof fn lemma_tally_never(width: int, grid: Map<(int, int), CellKind>, n: int)
    requires
        0 <= n,
    ensures
        tally(width, grid, |x: int, y: int, k: CellKind| false, n) == 0,
    decreases n,
{
    if n > 0 {
        lemma_tally_never(width, grid, n - 1);
    }
}

/// Writing on the grid keeps the maze's frame, and is seen at the position
/// written and nowhere else.
pub proof fn lemma_put(m: MazeView, c: Coord, k: CellKind)
    requires
        m.shaped(),
        m.holds(c),
    ensures
        m.put(c, k).shaped(),
        m.put(c, k).kind(c) == k,
        forall|x: int, y: int|
            (x != c.x || y != c.y) ==> #[trigger] m.put(c, k).at(x, y) == m.at(x, y),
{
    let n = m.put(c, k);
    assert forall|x: int, y: int| #[trigger]
        n.grid.dom().contains((x, y)) <==> n.inside(x, y) by {
        assert(m.grid.dom().contains((x, y)) <==> m.inside(x, y));
    }
}

/// A maze that generators fill and renderers read.
#[derive(Debug, Clone)]
pub struct Maze {
    geometry: Geometry,
    grid: Vec<CellKind>,
    vertical_bias: u64,
    origin: Coord,
    end: Coord,
    len: i64,
    scale: Scale,
}

impl View for Maze {
    type V = MazeView;

    closed spec fn view(&self) -> MazeView {
        MazeView {
            width: self.geometry.width as int,
            height: self.geometry.height as int,
            grid: Map::new(
                |p: (int, int)|
                    0 <= p.0 < self.geometry.width && 0 <= p.1 < self.geometry.height,
                |p: (int, int)| self.grid@[p.1 * self.geometry.width + p.0],
            ),
            bias: self.vertical_bias as int,
            origin: self.origin,
            end: self.end,
            len: self.len as int,
            scale: self.scale,
        }
    }
}

impl Maze {
    /// Whether the cells are stored as the view says.
    pub closed spec fn backed(&self) -> bool {
        self.grid.len() == self.geometry.width * self.geometry.height
    }

    /// The invariant of every maze: its frame, and the storage behind it.
    pub open spec fn wf(&self) -> bool {
        self@.shaped() && self.backed()
    }

    /// A maze on a grid of size `g` in which nothing is decided yet.
    ///
    /// `vertical_bias` is the chance, out of `BIAS_RANGE`, that a generator
    /// takes its next wall from those that join two rooms one above the other.
    /// `origin` is where generation starts, moved up and left to the nearest
    /// room. The end is the bottom right corner until a path is known.
    pub fn new(g: &Geometry, vertical_bias: u64, origin: &Coord) -> (r: Result<Maze, ConfigError>)
        ensures
            match r {
                Ok(m) => config_error(*g, vertical_bias, *origin).is_none() && m.wf() && m@
                    == MazeView::blank(*g, vertical_bias, *origin),
                Err(e) => config_error(*g, vertical_bias, *origin) == Some(e),
            },
    {
        if g.width == 0 || g.height == 0 {
            return Err(ConfigError::EmptyGrid);
        }
        let cells: usize = match g.width.checked_mul(g.height) {
            Some(n) => n,
            None => {
                return Err(ConfigError::GridTooLarge);
            },
        };
        if cells as u64 > MAX_CELLS {
            return Err(ConfigError::GridTooLarge);
        }
        if vertical_bias == 0 || vertical_bias >= BIAS_RANGE {
            return Err(ConfigError::BiasOutOfRange);
        }
        if origin.x >= g.width || origin.y >= g.height {
            return Err(ConfigError::OriginOutOfRange);
        }
        let mut grid: Vec<CellKind> = Vec::new();
        let mut i: usize = 0;
        while i < cells
            invariant
                i <= cells,
                grid.len() == i,
                forall|j: int| 0 <= j < i ==> grid[j] == CellKind::Undefined,
            decreases cells - i,
        {
            grid.push(CellKind::Undefined);
            i = i + 1;
        }
        let mut m = Maze {
            geometry: *g,
            grid: grid,
            vertical_bias: vertical_bias,
            origin: Coord { x: 0, y: 0 },
            end: Coord { x: g.width - 1, y: g.height - 1 },
            len: 0,
            scale: Scale::Steps,
        };
        m.origin = m.origin_to_coord(origin);
        proof {
            let blank = MazeView::blank(*g, vertical_bias, *origin);
            assert forall|p: (int, int)| m@.grid.dom().contains(p) implies #[trigger] m@.grid[p]
                == blank.grid[p] by {
                lemma_row_major(g.width as int, g.height as int, p.0, p.1);
            }
            assert(m@.grid =~= blank.grid);
            assert(m@ =~= blank);
        }
        Ok(m)
    }

    /// Where generation starts.
    pub fn origin(&self) -> (c: Coord)
        ensures
            c == self@.origin,
    {
        self.origin
    }

    /// The position farthest from the origin among those reached so far.
    pub fn end(&self) -> (c: Coord)
        ensures
            c == self@.end,
    {
        self.end
    }

    /// The length of the longest path known, in steps.
    pub fn len(&self) -> (d: i64)
        ensures
            d == self@.len,
    {
        self.len
    }

    /// The size of the grid.
    pub fn geometry(&self) -> (g: Geometry)
        ensures
            g.width == self@.width,
            g.height == self@.height,
    {
        self.geometry
    }

    /// The vertical bias, out of `BIAS_RANGE`.
    pub fn vertical_bias(&self) -> (b: u64)
        ensures
            b == self@.bias,
    {
        self.vertical_bias
    }

    /// How the numbers in the path cells are to be read.
    pub fn scale(&self) -> (s: Scale)
        ensures
            s == self@.scale,
    {
        self.scale
    }

    /// The room at or next above and left of `origin`.
    pub fn origin_to_coord(&self, origin: &Coord) -> (c: Coord)
        ensures
            c.x == origin.x - origin.x % 2,
            c.y == origin.y - origin.y % 2,
    {
        Coord { x: origin.x - origin.x % 2, y: origin.y - origin.y % 2 }
    }

    /// What the grid holds at `c`; `Undefined` when `c` lies outside it.
    pub fn cell_kind(&self, c: &Coord) -> (k: CellKind)
        requires
            self.wf(),
        ensures
            k == self@.kind(*c),
    {
        if c.x >= self.geometry.width || c.y >= self.geometry.height {
            CellKind::Undefined
        } else {
            proof {
                lemma_row_major(
                    self.geometry.width as int,
                    self.geometry.height as int,
                    c.x as int,
                    c.y as int,
                );
            }
            self.grid[c.y * self.geometry.width + c.x]
        }
    }

    /// Writes `k` at `c`.
    fn store(&mut self, c: &Coord, k: CellKind)
        requires
            old(self).wf(),
            old(self)@.holds(*c),
        ensures
            final(self).wf(),
            final(self)@ == old(self)@.put(*c, k),
    {
        let ghost w = self.geometry.width as int;
        let ghost h = self.geometry.height as int;
        proof {
            lemma_row_major(w, h, c.x as int, c.y as int);
            lemma_put(self@, *c, k);
        }
        let i = c.y * self.geometry.width + c.x;
        self.grid.set(i, k);
        proof {
            let after = self@;
            let want = old(self)@.put(*c, k);
            assert forall|p: (int, int)| after.grid.dom().contains(p) implies #[trigger] after.grid[p]
                == want.grid[p] by {
                lemma_row_major(w, h, p.0, p.1);
            }
            assert(after.grid =~= want.grid);
            assert(after =~= want);
        }
    }

    /// Opens `c` with the number `d`, whatever was there.
    pub fn set_path(&mut self, c: &Coord, d: i64)
        requires
            old(self).wf(),
            old(self)@.holds(*c),
        ensures
            final(self).wf(),
            final(self)@ == old(self)@.put(*c, CellKind::PathKind(d)),
    {
        self.store(c, CellKind::PathKind(d));
    }

    /// Closes `c`; nothing changes if it was closed already.
    pub fn set_wall(&mut self, c: &Coord)
        requires
            old(self).wf(),
            old(self)@.holds(*c),
        ensures
            final(self).wf(),
            final(self)@ == old(self)@.put(*c, CellKind::WallKind),
    {
        if let CellKind::WallKind = self.cell_kind(c) {
            proof {
                assert(self@.grid =~= self@.put(*c, CellKind::WallKind).grid);
            }
            return ;
        }
        self.store(c, CellKind::WallKind);
    }

    /// Closes every position of `walls`.
    pub fn set_walls(&mut self, walls: &Vec<Coord>)
        requires
            old(self).wf(),
            forall|i: int| 0 <= i < walls.len() ==> old(self)@.holds(#[trigger] walls[i]),
        ensures
            final(self).wf(),
            final(self)@ == old(self)@.wall_all(walls@),
    {
        let mut i: usize = 0;
        while i < walls.len()
            invariant
                i <= walls.len(),
                self.wf(),
                self@ == old(self)@.wall_all(walls@.take(i as int)),
                self@.width == old(self)@.width,
                self@.height == old(self)@.height,
                forall|j: int| 0 <= j < walls.len() ==> old(self)@.holds(#[trigger] walls[j]),
            decreases walls.len() - i,
        {
            let w = walls[i];
            self.set_wall(&w);
            proof {
                assert(walls@.take(i + 1).drop_last() =~= walls@.take(i as int));
            }
            i = i + 1;
        }
        proof {
            assert(walls@.take(walls.len() as int) =~= walls@);
        }
    }

    /// Moves `end` to `c` and `len` to `d` if `d` is strictly longer than the
    /// longest path known.
    pub fn stretch(&mut self, c: &Coord, d: i64)
        requires
            old(self).wf(),
            old(self)@.holds(*c),
            d <= MAX_CELLS,
        ensures
            final(self).wf(),
            final(self)@ == old(self)@.stretch(*c, d as int),
    {
        if self.len < d {
            self.len = d;
            self.end = *c;
        }
    }

    /// Forgets the longest path known: `len` goes back to 0, `end` stays.
    pub fn reset_len(&mut self)
        requires
            old(self).wf(),
        ensures
            final(self).wf(),
            final(self)@ == (MazeView { len: 0, ..old(self)@ }),
    {
        self.len = 0;
    }

    /// Declares how the numbers in the path cells are to be read from now on.
    pub fn read_as(&mut self, scale: Scale)
        requires
            old(self).wf(),
        ensures
            final(self).wf(),
            final(self)@ == old(self)@.read_as(scale),
    {
        self.scale = scale;
    }

    /// The neighbour above `c`, unless `c` is in the top row.
    pub fn get_coord_up(&self, c: &Coord) -> (n: Option<Coord>)
        requires
            self.wf(),
        ensures
            n == self@.step(*c, Direction::Up),
    {
        if c.y == 0 {
            None
        } else {
            Some(Coord { x: c.x, y: c.y - 1 })
        }
    }

    /// The neighbour below `c`, unless `c` is in the bottom row or beyond.
    pub fn get_coord_down(&self, c: &Coord) -> (n: Option<Coord>)
        requires
            self.wf(),
        ensures
            n == self@.step(*c, Direction::Down),
    {
        if c.y >= self.geometry.height - 1 {
            None
        } else {
            Some(Coord { x: c.x, y: c.y + 1 })
        }
    }

    /// The neighbour left of `c`, unless `c` is in the first column.
    pub fn get_coord_left(&self, c: &Coord) -> (n: Option<Coord>)
        requires
            self.wf(),
        ensures
            n == self@.step(*c, Direction::Left),
    {
        if c.x == 0 {
            None
        } else {
            Some(Coord { x: c.x - 1, y: c.y })
        }
    }

    /// The neighbour right of `c`, unless `c` is in the last column or beyond.
    pub fn get_coord_right(&self, c: &Coord) -> (n: Option<Coord>)
        requires
            self.wf(),
        ensures
            n == self@.step(*c, Direction::Right),
    {
        if c.x >= self.geometry.width - 1 {
            None
        } else {
            Some(Coord { x: c.x + 1, y: c.y })
        }
    }

    /// The neighbour of `c` in direction `dir`, if the grid has one.
    pub fn get_coord_next(&self, c: &Coord, dir: &Direction) -> (n: Option<Coord>)
        requires
            self.wf(),
        ensures
            n == self@.step(*c, *dir),
    {
        match *dir {
            Direction::Up => self.get_coord_up(c),
            Direction::Down => self.get_coord_down(c),
            Direction::Left => self.get_coord_left(c),
            Direction::Right => self.get_coord_right(c),
        }
    }

    /// The neighbours of `c` at which nothing is decided: up, down, left, right.
    pub fn get_undefined_cells_around(&self, c: &Coord) -> (v: Vec<Coord>)
        requires
            self.wf(),
        ensures
            v@ == self@.undefined_around(*c),
    {
        let mut v: Vec<Coord> = Vec::new();
        self.collect_undefined(c, Direction::Up, &mut v);
        self.collect_undefined(c, Direction::Down, &mut v);
        self.collect_undefined(c, Direction::Left, &mut v);
        self.collect_undefined(c, Direction::Right, &mut v);
        v
    }

    /// Puts the neighbour of `c` in direction `dir` on `v`, if the grid has it and
    /// nothing is decided there.
    fn collect_undefined(&self, c: &Coord, dir: Direction, v: &mut Vec<Coord>)
        requires
            self.wf(),
        ensures
            final(v)@ == old(v)@ + self@.undefined_towards(*c, dir),
    {
        if let Some(n) = self.get_coord_next(c, &dir) {
            if let CellKind::Undefined = self.cell_kind(&n) {
                v.push(n);
            }
        }
    }
}

impl Maze {
    /// Closes every position at which nothing is decided; with `corners_only`,
    /// only those that are corners.
    pub fn seal(&mut self, corners_only: bool)
        requires
            old(self).wf(),
        ensures
            final(self).wf(),
            final(self)@ == old(self)@.sealed(corners_only),
    {
        let ghost before = self@;
        let ghost goal = self@.sealed(corners_only);
        let width = self.geometry.width;
        let height = self.geometry.height;
        let mut y: usize = 0;
        while y < height
            invariant
                y <= height,
                width == before.width,
                height == before.height,
                before.shaped(),
                goal == before.sealed(corners_only),
                self.wf(),
                self@ == (MazeView { grid: self@.grid, ..before }),
                forall|i: int, j: int|
                    before.inside(i, j) ==> #[trigger] self@.at(i, j) == if j < y {
                        goal.at(i, j)
                    } else {
                        before.at(i, j)
                    },
            decreases height - y,
        {
            let mut x: usize = 0;
            while x < width
                invariant
                    x <= width,
                    y < height,
                    width == before.width,
                    height == before.height,
                    before.shaped(),
                    goal == before.sealed(corners_only),
                    self.wf(),
                    self@ == (MazeView { grid: self@.grid, ..before }),
                    forall|i: int, j: int|
                        before.inside(i, j) ==> #[trigger] self@.at(i, j) == if j < y || (j == y && i
                            < x) {
                            goal.at(i, j)
                        } else {
                            before.at(i, j)
                        },
                decreases width - x,
            {
                let c = Coord { x: x, y: y };
                let ghost prev = self@;
                if !corners_only || (x % 2 == 1 && y % 2 == 1) {
                    if let CellKind::Undefined = self.cell_kind(&c) {
                        proof {
                            lemma_put(prev, c, CellKind::WallKind);
                        }
                        self.set_wall(&c);
                    }
                }
                proof {
                    assert(self@ =~= (MazeView { grid: self@.grid, ..before }));
                }
                x = x + 1;
            }
            y = y + 1;
        }
        proof {
            assert forall|p: (int, int)| self@.grid.dom().contains(p) implies #[trigger] self@.grid[p]
                == goal.grid[p] by {
                assert(self@.grid.dom().contains((p.0, p.1)));
                assert(self@.at(p.0, p.1) == goal.at(p.0, p.1));
            }
            assert forall|p: (int, int)| self@.grid.dom().contains(p) <==> goal.grid.dom().contains(
                p,
            ) by {
                assert(self@.grid.dom().contains((p.0, p.1)) <==> self@.inside(p.0, p.1));
            }
            assert(self@.grid =~= goal.grid);
            assert(self@ =~= goal);
        }
    }
}

} // verus!
