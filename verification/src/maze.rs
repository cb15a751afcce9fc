use rand::StdRng;
use vstd::prelude::*;
use crate::config::Config;
use crate::error::Error;
use crate::random::gen_range;
use crate::sets::{lemma_wall_key_injective, wall_key, CoordSet, WallSet};

verus! {

/// Which way a wall runs.
#[derive(Debug, Clone, Copy, PartialEq, Eq, Hash, Structural)]
pub enum Orientation {
    Horizontal,
    Vertical,
}

/// The four ways out of a cell.
#[derive(Debug, Clone, Copy, PartialEq, Eq, Hash, Structural)]
pub enum Direction {
    North,
    East,
    South,
    West,
}

/// A position in pixels.
#[derive(Debug, Clone, Copy, PartialEq, Eq, Hash, Structural)]
pub struct Point {
    pub x: i32,
    pub y: i32,
}

/// The address of a cell: column `x`, row `y`.
#[derive(Debug, Clone, Copy, PartialEq, Eq, Hash, Structural)]
pub struct Coord {
    pub x: i32,
    pub y: i32,
}

/// The boundary between two adjacent cells, or between a cell and the
/// outside. Two cells that share a wall name the same value.
#[derive(Debug, Clone, Copy, PartialEq, Eq, Hash, Structural)]
pub struct Wall {
    pub center: Point,
    pub orientation: Orientation,
    pub border: bool,
    pub size: u32,
}

/// Half of `n`, rounded up.
pub open spec fn half_up(n: u32) -> int {
    (n + 1) / 2
}

/// The quotient of `a` by a positive `b`, rounded towards zero.
pub open spec fn trunc_div(a: int, b: int) -> int {
    if a >= 0 {
        a / b
    } else {
        -((-a) / b)
    }
}

/// The index of the cell of side `size` whose centre line is at pixel `p`.
pub open spec fn cell_index(p: int, size: u32) -> i32 {
    trunc_div(p - size / 2, size as int) as i32
}

/// The distance between two numbers.
pub open spec fn gap(a: int, b: int) -> int {
    if a >= b {
        a - b
    } else {
        b - a
    }
}

/// A whole number of cells divides out exactly, also below zero.
pub proof fn lemma_trunc_div_multiple(k: int, size: int)
    requires
        size > 0,
    ensures
        trunc_div(k * size, size) == k,
{
    if k >= 0 {
        assert(k * size >= 0) by (nonlinear_arith)
            requires
                k >= 0,
                size > 0,
        ;
        assert(k * size == size * k) by (nonlinear_arith);
        vstd::arithmetic::div_mod::lemma_div_multiples_vanish(k, size);
    } else {
        assert(k * size < 0) by (nonlinear_arith)
            requires
                k < 0,
                size > 0,
        ;
        assert(-(k * size) == size * (-k)) by (nonlinear_arith);
        vstd::arithmetic::div_mod::lemma_div_multiples_vanish(-k, size);
    }
}

/// The product of a cell index and a cell size fits a signed 64-bit
/// integer, with room for half a cell.
pub proof fn lemma_product_fits(k: i32, size: u32)
    ensures
        -0x8000_0000_0000_0000 <= k * size,
        k * size + size / 2 <= 0x7fff_ffff_ffff_ffff,
{
    assert(-0x8000_0000_0000_0000 <= k * size && k * size + size / 2 <= 0x7fff_ffff_ffff_ffff)
        by (nonlinear_arith)
        requires
            -0x8000_0000 <= k <= 0x7fff_ffff,
            0 <= size <= 0xffff_ffff,
    ;
}

/// The cell of a cell's centre is the cell itself, inside the grid and
/// outside it.
pub proof fn lemma_centre_names_cell(c: Coord, cell_width: u32, cell_height: u32)
    requires
        1 <= cell_width,
        1 <= cell_height,
        i32::MIN <= c.x * cell_width + cell_width / 2 <= i32::MAX,
        i32::MIN <= c.y * cell_height + cell_height / 2 <= i32::MAX,
    ensures
        c.spec_into_point(cell_width, cell_height).spec_into_coord(cell_width, cell_height) == c,
{
    lemma_trunc_div_multiple(c.x as int, cell_width as int);
    lemma_trunc_div_multiple(c.y as int, cell_height as int);
}

/// Pixels grow with cells: a cell inside a grid of `w` cells of `size`
/// pixels lies inside the grid's pixels.
pub proof fn lemma_pixel_bounds(x: int, w: int, size: int)
    requires
        0 <= x < w,
        1 <= size,
    ensures
        0 <= x * size,
        x * size + size <= w * size,
        (x + 1) * size == x * size + size,
        (x - 1) * size == x * size - size,
{
    assert(0 <= x * size && x * size + size <= w * size && (x + 1) * size == x * size + size && (x
        - 1) * size == x * size - size) by (nonlinear_arith)
        requires
            0 <= x < w,
            1 <= size,
    ;
}

/// Inside a well-formed grid every pixel of every cell fits a signed 32-bit
/// integer.
pub proof fn lemma_cell_pixels(c: Coord, config: &Config)
    requires
        config.wf(),
        c.spec_valid_coord(config.width, config.height),
    ensures
        0 <= c.x * config.cell_size,
        0 <= c.y * config.cell_size,
        (c.x + 1) * config.cell_size == c.x * config.cell_size + config.cell_size,
        (c.y + 1) * config.cell_size == c.y * config.cell_size + config.cell_size,
        (c.x + 1) * config.cell_size <= config.width * config.cell_size <= i32::MAX,
        (c.y + 1) * config.cell_size <= config.height * config.cell_size <= i32::MAX,
        config.cell_size <= i32::MAX,
{
    lemma_pixel_bounds(c.x as int, config.width as int, config.cell_size as int);
    lemma_pixel_bounds(c.y as int, config.height as int, config.cell_size as int);
    assert(config.width * config.cell_size == config.cell_size * config.width) by (nonlinear_arith);
    assert(config.height * config.cell_size == config.cell_size * config.height)
        by (nonlinear_arith);
}

/// A well-formed grid has no more cells along an axis than a signed 32-bit
/// integer can count.
pub proof fn lemma_config_bounds(config: &Config)
    requires
        config.wf(),
    ensures
        config.width <= i32::MAX,
        config.height <= i32::MAX,
        config.cell_size <= i32::MAX,
{
    assert(config.width <= config.cell_size * config.width && config.cell_size <= config.cell_size
        * config.width && config.height <= config.cell_size * config.height) by (nonlinear_arith)
        requires
            1 <= config.cell_size,
            1 <= config.width,
            1 <= config.height,
    ;
}

/// Filtering a list with one more entry keeps that entry or not, and the rest
/// as before.
pub proof fn lemma_filter_push<A>(s: Seq<A>, keep: spec_fn(A) -> bool, last: A)
    ensures
        s.push(last).filter(keep) == if keep(last) {
            s.filter(keep).push(last)
        } else {
            s.filter(keep)
        },
{
    reveal(Seq::filter);
    assert(s.push(last).drop_last() == s);
}

/// The pixel at the middle of cell `k` along an axis.
pub open spec fn mid(k: int, size: u32) -> int {
    k * size + size / 2
}

/// The pixel of the line that separates cell `k - 1` from cell `k` along an
/// axis.
pub open spec fn edge(k: int, size: u32) -> int {
    k * size + size / 2 - half_up(size)
}

/// The wall above the cell in column `x` and row `line`, which is also the
/// wall below the cell in row `line - 1`.
pub open spec fn row_wall(x: int, line: int, config: &Config) -> Wall {
    Wall {
        center: Point { x: mid(x, config.cell_size) as i32, y: edge(line, config.cell_size) as i32 },
        orientation: Orientation::Horizontal,
        border: line == 0 || line == config.height,
        size: config.cell_size,
    }
}

/// The wall to the left of the cell in column `line` and row `y`, which is
/// also the wall to the right of the cell in column `line - 1`.
pub open spec fn column_wall(line: int, y: int, config: &Config) -> Wall {
    Wall {
        center: Point { x: edge(line, config.cell_size) as i32, y: mid(y, config.cell_size) as i32 },
        orientation: Orientation::Vertical,
        border: line == 0 || line == config.width,
        size: config.cell_size,
    }
}

/// The middles of the cells and the lines between them all fit a signed
/// 32-bit integer, and neither two middles nor two lines coincide.
pub proof fn lemma_pixels_distinct(a: int, b: int, n: int, size: u32)
    requires
        0 <= a <= n,
        0 <= b <= n,
        1 <= size,
        n * size <= i32::MAX,
    ensures
        -1 <= edge(a, size) <= i32::MAX,
        a < n ==> 0 <= mid(a, size) <= i32::MAX,
        edge(a, size) == edge(b, size) ==> a == b,
        mid(a, size) == mid(b, size) ==> a == b,
        edge(a + 1, size) == edge(a, size) + size,
{
    assert(0 <= a * size && (a < n ==> a * size + size <= n * size) && a * size <= n * size && (a
        + 1) * size == a * size + size) by (nonlinear_arith)
        requires
            0 <= a <= n,
            1 <= size,
    ;
    assert(a * size == b * size ==> a == b) by (nonlinear_arith)
        requires
            1 <= size,
    ;
}

/// The four walls of a cell in terms of the lines of the grid: the wall to
/// the east of a cell is the wall to the west of its eastern neighbour, and
/// the wall to the south is the wall to the north of its southern neighbour.
pub proof fn lemma_walls_on_lines(c: Coord, config: &Config)
    requires
        config.wf(),
        c.spec_valid_coord(config.width, config.height),
    ensures
        c.spec_north_wall(config) == row_wall(c.x as int, c.y as int, config),
        c.spec_south_wall(config) == row_wall(c.x as int, c.y + 1, config),
        c.spec_west_wall(config) == column_wall(c.x as int, c.y as int, config),
        c.spec_east_wall(config) == column_wall(c.x + 1, c.y as int, config),
{
    lemma_cell_pixels(c, config);
    lemma_pixels_distinct(c.x as int, c.x as int, config.width as int, config.cell_size);
    lemma_pixels_distinct(c.y as int, c.y as int, config.height as int, config.cell_size);
    lemma_pixels_distinct(c.x + 1, c.x + 1, config.width as int, config.cell_size);
    lemma_pixels_distinct(c.y + 1, c.y + 1, config.height as int, config.cell_size);
}

/// Two walls on the lines of the grid that stand in the same place are the
/// same wall.
pub proof fn lemma_row_walls_distinct(x1: int, l1: int, x2: int, l2: int, config: &Config)
    requires
        config.wf(),
        0 <= x1 < config.width,
        0 <= x2 < config.width,
        0 <= l1 <= config.height,
        0 <= l2 <= config.height,
        row_wall(x1, l1, config).center == row_wall(x2, l2, config).center,
    ensures
        x1 == x2,
        l1 == l2,
{
    assert(config.width * config.cell_size == config.cell_size * config.width
        && config.height * config.cell_size == config.cell_size * config.height)
        by (nonlinear_arith);
    lemma_pixels_distinct(x1, x2, config.width as int, config.cell_size);
    lemma_pixels_distinct(x2, x1, config.width as int, config.cell_size);
    lemma_pixels_distinct(l1, l2, config.height as int, config.cell_size);
    lemma_pixels_distinct(l2, l1, config.height as int, config.cell_size);
}

pub proof fn lemma_column_walls_distinct(l1: int, y1: int, l2: int, y2: int, config: &Config)
    requires
        config.wf(),
        0 <= y1 < config.height,
        0 <= y2 < config.height,
        0 <= l1 <= config.width,
        0 <= l2 <= config.width,
        column_wall(l1, y1, config).center == column_wall(l2, y2, config).center,
    ensures
        y1 == y2,
        l1 == l2,
{
    assert(config.width * config.cell_size == config.cell_size * config.width
        && config.height * config.cell_size == config.cell_size * config.height)
        by (nonlinear_arith);
    lemma_pixels_distinct(y1, y2, config.height as int, config.cell_size);
    lemma_pixels_distinct(y2, y1, config.height as int, config.cell_size);
    lemma_pixels_distinct(l1, l2, config.width as int, config.cell_size);
    lemma_pixels_distinct(l2, l1, config.width as int, config.cell_size);
}

fn cell_of(p: i64, size: u32) -> (r: i32)
    requires
        1 <= size,
        -0x1_0000_0000 <= p <= 0x1_0000_0000,
    ensures
        r == cell_index(p as int, size),
{
    let d: i64 = p - (size / 2) as i64;
    let q: i64 = if d >= 0 {
        d / (size as i64)
    } else {
        -((-d) / (size as i64))
    };
    #[verifier::truncate]
    (q as i32)
}

impl Direction {
    /// The direction that leads back.
    pub open spec fn opposite(self) -> Direction {
        match self {
            Direction::North => Direction::South,
            Direction::East => Direction::West,
            Direction::South => Direction::North,
            Direction::West => Direction::East,
        }
    }
}

/// How a cell is shown.
#[derive(Debug, Clone, Copy, PartialEq, Eq, Structural)]
pub enum Shade {
    /// The start of the maze.
    Start,
    /// The end of the maze.
    End,
    /// What the algorithm works on in this tick.
    Bright,
    /// The way of a solver back to the start.
    Medium,
    /// What a solver has found and not visited.
    Dark,
    /// Explored, with no other mark.
    Explored,
    /// Nothing to show.
    Plain,
}

/// The number that a `u32` becomes when its bits are read as an `i32`.
pub open spec fn reinterpreted(v: u32) -> i32 {
    if v <= i32::MAX {
        v as i32
    } else {
        (v - 0x1_0000_0000) as i32
    }
}

impl vstd::std_specs::convert::FromSpecImpl<[i32; 2]> for Point {
    open spec fn obeys_from_spec() -> bool {
        true
    }

    open spec fn from_spec(a: [i32; 2]) -> Point {
        Point { x: a[0], y: a[1] }
    }
}

impl From<[i32; 2]> for Point {
    /// The point with the array's first entry as `x` and its second as `y`.
    fn from(a: [i32; 2]) -> (r: Point)
        ensures
            r == (Point { x: a[0], y: a[1] }),
    {
        Point { x: a[0], y: a[1] }
    }
}

impl vstd::std_specs::convert::FromSpecImpl<[i32; 2]> for Coord {
    open spec fn obeys_from_spec() -> bool {
        true
    }

    open spec fn from_spec(a: [i32; 2]) -> Coord {
        Coord { x: a[0], y: a[1] }
    }
}

impl From<[i32; 2]> for Coord {
    /// The cell in column `a[0]` and row `a[1]`.
    fn from(a: [i32; 2]) -> (r: Coord)
        ensures
            r == (Coord { x: a[0], y: a[1] }),
    {
        Coord { x: a[0], y: a[1] }
    }
}

impl vstd::std_specs::convert::FromSpecImpl<[u32; 2]> for Coord {
    open spec fn obeys_from_spec() -> bool {
        true
    }

    open spec fn from_spec(a: [u32; 2]) -> Coord {
        Coord { x: reinterpreted(a[0]), y: reinterpreted(a[1]) }
    }
}

impl From<[u32; 2]> for Coord {
    /// The cell in column `a[0]` and row `a[1]`; an entry above `i32::MAX`
    /// wraps around to a negative number.
    fn from(a: [u32; 2]) -> (r: Coord)
        ensures
            r == (Coord { x: reinterpreted(a[0]), y: reinterpreted(a[1]) }),
    {
        Coord { x: signed(a[0]), y: signed(a[1]) }
    }
}

/// Reads the bits of a `u32` as an `i32`.
fn signed(v: u32) -> (r: i32)
    ensures
        r == reinterpreted(v),
{
    assert(v > 0x7fff_ffffu32 ==> (v as i32) == (v - 0x1_0000_0000) as i32) by (bit_vector);
    v as i32
}

impl Point {
    pub open spec fn spec_into_coord(self, cell_width: u32, cell_height: u32) -> Coord {
        Coord { x: cell_index(self.x as int, cell_width), y: cell_index(self.y as int, cell_height) }
    }

    /// The cell whose centre this point is.
    pub fn into_coord(self, cell_width: u32, cell_height: u32) -> (r: Coord)
        requires
            1 <= cell_width,
            1 <= cell_height,
        ensures
            r == self.spec_into_coord(cell_width, cell_height),
    {
        Coord { x: cell_of(self.x as i64, cell_width), y: cell_of(self.y as i64, cell_height) }
    }
}

impl Coord {
    /// The cell lies inside a grid of `maze_width` by `maze_height` cells.
    pub open spec fn spec_valid_coord(self, maze_width: u32, maze_height: u32) -> bool {
        0 <= self.x < maze_width && 0 <= self.y < maze_height
    }

    /// The sum of the distances along both axes.
    pub open spec fn spec_manhattan_dist(self, other: Coord) -> int {
        gap(self.x as int, other.x as int) + gap(self.y as int, other.y as int)
    }

    /// The cell one step away in a direction, where that step stays within
    /// the numbers a coordinate can hold.
    pub open spec fn step(self, direction: Direction) -> Option<Coord> {
        match direction {
            Direction::North => if self.y > i32::MIN {
                Some(Coord { x: self.x, y: (self.y - 1) as i32 })
            } else {
                None
            },
            Direction::East => if self.x < i32::MAX {
                Some(Coord { x: (self.x + 1) as i32, y: self.y })
            } else {
                None
            },
            Direction::South => if self.y < i32::MAX {
                Some(Coord { x: self.x, y: (self.y + 1) as i32 })
            } else {
                None
            },
            Direction::West => if self.x > i32::MIN {
                Some(Coord { x: (self.x - 1) as i32, y: self.y })
            } else {
                None
            },
        }
    }

    /// The neighbour in a direction, if it lies inside the grid.
    pub open spec fn spec_neighbour(
        self,
        direction: Direction,
        maze_width: u32,
        maze_height: u32,
    ) -> Option<Coord> {
        match self.step(direction) {
            Some(c) => if c.spec_valid_coord(maze_width, maze_height) {
                Some(c)
            } else {
                None
            },
            None => None,
        }
    }

    /// The neighbour in one direction as a list of one or no entry.
    pub open spec fn towards(self, direction: Direction, maze_width: u32, maze_height: u32) -> Seq<
        (Coord, Direction),
    > {
        match self.spec_neighbour(direction, maze_width, maze_height) {
            Some(c) => seq![(c, direction)],
            None => seq![],
        }
    }

    /// The neighbours inside the grid: north, east, south, west, in that
    /// order.
    pub open spec fn spec_neighbours(self, maze_width: u32, maze_height: u32) -> Seq<
        (Coord, Direction),
    > {
        self.towards(Direction::North, maze_width, maze_height) + self.towards(
            Direction::East,
            maze_width,
            maze_height,
        ) + self.towards(Direction::South, maze_width, maze_height) + self.towards(
            Direction::West,
            maze_width,
            maze_height,
        )
    }

    /// The centre of the cell in pixels.
    pub open spec fn spec_into_point(self, cell_width: u32, cell_height: u32) -> Point {
        Point {
            x: (self.x * cell_width + cell_width / 2) as i32,
            y: (self.y * cell_height + cell_height / 2) as i32,
        }
    }

    pub open spec fn spec_north_wall(self, config: &Config) -> Wall {
        let p = self.spec_into_point(config.cell_size, config.cell_size);
        Wall {
            center: Point { x: p.x, y: (p.y - half_up(config.cell_size)) as i32 },
            orientation: Orientation::Horizontal,
            border: self.y == 0,
            size: config.cell_size,
        }
    }

    pub open spec fn spec_east_wall(self, config: &Config) -> Wall {
        let p = self.spec_into_point(config.cell_size, config.cell_size);
        Wall {
            center: Point { x: (p.x + config.cell_size / 2) as i32, y: p.y },
            orientation: Orientation::Vertical,
            border: self.x == config.width - 1,
            size: config.cell_size,
        }
    }

    pub open spec fn spec_south_wall(self, config: &Config) -> Wall {
        let p = self.spec_into_point(config.cell_size, config.cell_size);
        Wall {
            center: Point { x: p.x, y: (p.y + config.cell_size / 2) as i32 },
            orientation: Orientation::Horizontal,
            border: self.y == config.height - 1,
            size: config.cell_size,
        }
    }

    pub open spec fn spec_west_wall(self, config: &Config) -> Wall {
        let p = self.spec_into_point(config.cell_size, config.cell_size);
        Wall {
            center: Point { x: (p.x - half_up(config.cell_size)) as i32, y: p.y },
            orientation: Orientation::Vertical,
            border: self.x == 0,
            size: config.cell_size,
        }
    }

    /// The wall that bounds the cell in a direction.
    pub open spec fn spec_wall(self, direction: Direction, config: &Config) -> Wall {
        match direction {
            Direction::North => self.spec_north_wall(config),
            Direction::East => self.spec_east_wall(config),
            Direction::South => self.spec_south_wall(config),
            Direction::West => self.spec_west_wall(config),
        }
    }

    /// The sum of the distances along both axes.
    pub fn manhattan_dist(&self, other: &Coord) -> (r: u32)
        requires
            self.spec_manhattan_dist(*other) <= u32::MAX,
        ensures
            r == self.spec_manhattan_dist(*other),
    {
        let dx: i64 = self.x as i64 - other.x as i64;
        let dy: i64 = self.y as i64 - other.y as i64;
        let ax: i64 = if dx >= 0 { dx } else { -dx };
        let ay: i64 = if dy >= 0 { dy } else { -dy };
        (ax + ay) as u32
    }

    /// The four walls of the cell: north, east, south, west.
    pub fn walls(&self, config: &Config) -> (r: [Wall; 4])
        requires
            config.wf(),
            self.spec_valid_coord(config.width, config.height),
        ensures
            r[0] == self.spec_north_wall(config),
            r[1] == self.spec_east_wall(config),
            r[2] == self.spec_south_wall(config),
            r[3] == self.spec_west_wall(config),
    {
        [
            self.north_wall(config),
            self.east_wall(config),
            self.south_wall(config),
            self.west_wall(config),
        ]
    }

    /// The wall that bounds the cell in a direction.
    pub fn wall(&self, direction: &Direction, config: &Config) -> (r: Wall)
        requires
            config.wf(),
            self.spec_valid_coord(config.width, config.height),
        ensures
            r == self.spec_wall(*direction, config),
    {
        match direction {
            Direction::North => self.north_wall(config),
            Direction::East => self.east_wall(config),
            Direction::South => self.south_wall(config),
            Direction::West => self.west_wall(config),
        }
    }

    pub fn north_wall(&self, config: &Config) -> (r: Wall)
        requires
            config.wf(),
            self.spec_valid_coord(config.width, config.height),
        ensures
            r == self.spec_north_wall(config),
    {
        proof {
            lemma_cell_pixels(*self, config);
        }
        let as_point: Point = self.into_point(config.cell_width(), config.cell_height());
        let offset: i32 = if config.cell_height() % 2 == 0 {
            (config.cell_height() / 2) as i32
        } else {
            ((config.cell_height() + 1) / 2) as i32
        };
        Wall {
            center: Point { x: as_point.x, y: as_point.y - offset },
            orientation: Orientation::Horizontal,
            border: self.y == 0,
            size: config.cell_height(),
        }
    }

    pub fn east_wall(&self, config: &Config) -> (r: Wall)
        requires
            config.wf(),
            self.spec_valid_coord(config.width, config.height),
        ensures
            r == self.spec_east_wall(config),
    {
        proof {
            lemma_cell_pixels(*self, config);
        }
        let as_point: Point = self.into_point(config.cell_width(), config.cell_height());
        Wall {
            center: Point { x: as_point.x + (config.cell_width() / 2) as i32, y: as_point.y },
            orientation: Orientation::Vertical,
            border: self.x as i64 == config.maze_width() as i64 - 1,
            size: config.cell_width(),
        }
    }

    pub fn south_wall(&self, config: &Config) -> (r: Wall)
        requires
            config.wf(),
            self.spec_valid_coord(config.width, config.height),
        ensures
            r == self.spec_south_wall(config),
    {
        proof {
            lemma_cell_pixels(*self, config);
        }
        let as_point: Point = self.into_point(config.cell_width(), config.cell_height());
        Wall {
            center: Point { x: as_point.x, y: as_point.y + (config.cell_height() / 2) as i32 },
            orientation: Orientation::Horizontal,
            border: self.y as i64 == config.maze_height() as i64 - 1,
            size: config.cell_height(),
        }
    }

    pub fn west_wall(&self, config: &Config) -> (r: Wall)
        requires
            config.wf(),
            self.spec_valid_coord(config.width, config.height),
        ensures
            r == self.spec_west_wall(config),
    {
        proof {
            lemma_cell_pixels(*self, config);
        }
        let as_point: Point = self.into_point(config.cell_width(), config.cell_height());
        let offset: i32 = if config.cell_width() % 2 == 0 {
            (config.cell_width() / 2) as i32
        } else {
            ((config.cell_width() + 1) / 2) as i32
        };
        Wall {
            center: Point { x: as_point.x - offset, y: as_point.y },
            orientation: Orientation::Vertical,
            border: self.x == 0,
            size: config.cell_width(),
        }
    }

    /// The centre of the cell in pixels. Cells left of or above the grid
    /// have centres too, as long as their pixels fit.
    pub fn into_point(self, cell_width: u32, cell_height: u32) -> (r: Point)
        requires
            i32::MIN <= self.x * cell_width + cell_width / 2 <= i32::MAX,
            i32::MIN <= self.y * cell_height + cell_height / 2 <= i32::MAX,
        ensures
            r == self.spec_into_point(cell_width, cell_height),
            r.x == self.x * cell_width + cell_width / 2,
            r.y == self.y * cell_height + cell_height / 2,
    {
        proof {
            lemma_product_fits(self.x, cell_width);
            lemma_product_fits(self.y, cell_height);
        }
        let px: i64 = (self.x as i64) * (cell_width as i64) + (cell_width / 2) as i64;
        let py: i64 = (self.y as i64) * (cell_height as i64) + (cell_height / 2) as i64;
        Point { x: px as i32, y: py as i32 }
    }

    /// Tells whether the cell lies inside a grid of `maze_width` by
    /// `maze_height` cells.
    pub fn valid_coord(&self, maze_width: u32, maze_height: u32) -> (r: bool)
        ensures
            r == self.spec_valid_coord(maze_width, maze_height),
    {
        self.x >= 0 && (self.x as i64) < maze_width as i64 && self.y >= 0 && (self.y as i64)
            < maze_height as i64
    }

    /// The neighbour in a direction, if it lies inside the grid.
    pub fn neighbour(&self, direction: &Direction, maze_width: u32, maze_height: u32) -> (r:
        Option<Coord>)
        ensures
            r == self.spec_neighbour(*direction, maze_width, maze_height),
    {
        let candidate = match direction {
            Direction::North => {
                if self.y == i32::MIN {
                    return None;
                }
                Coord { x: self.x, y: self.y - 1 }
            },
            Direction::East => {
                if self.x == i32::MAX {
                    return None;
                }
                Coord { x: self.x + 1, y: self.y }
            },
            Direction::South => {
                if self.y == i32::MAX {
                    return None;
                }
                Coord { x: self.x, y: self.y + 1 }
            },
            Direction::West => {
                if self.x == i32::MIN {
                    return None;
                }
                Coord { x: self.x - 1, y: self.y }
            },
        };

        if candidate.valid_coord(maze_width, maze_height) {
            Some(candidate)
        } else {
            None
        }
    }

    /// The neighbours inside the grid: north, east, south, west, in that
    /// order.
    pub fn neighbours(&self, maze_width: u32, maze_height: u32) -> (r: Vec<(Coord, Direction)>)
        ensures
            r@ == self.spec_neighbours(maze_width, maze_height),
    {
        let mut found: Vec<(Coord, Direction)> = Vec::new();
        if let Some(c) = self.neighbour(&Direction::North, maze_width, maze_height) {
            found.push((c, Direction::North));
        }
        assert(found@ =~= self.towards(Direction::North, maze_width, maze_height));
        if let Some(c) = self.neighbour(&Direction::East, maze_width, maze_height) {
            found.push((c, Direction::East));
        }
        assert(found@ =~= self.towards(Direction::North, maze_width, maze_height) + self.towards(
            Direction::East,
            maze_width,
            maze_height,
        ));
        if let Some(c) = self.neighbour(&Direction::South, maze_width, maze_height) {
            found.push((c, Direction::South));
        }
        assert(found@ =~= self.towards(Direction::North, maze_width, maze_height) + self.towards(
            Direction::East,
            maze_width,
            maze_height,
        ) + self.towards(Direction::South, maze_width, maze_height));
        if let Some(c) = self.neighbour(&Direction::West, maze_width, maze_height) {
            found.push((c, Direction::West));
        }
        assert(found@ =~= self.spec_neighbours(maze_width, maze_height));
        found
    }
}

impl Wall {
    /// A wall can be taken down unless it lies on the outer boundary.
    pub fn removable(&self) -> (r: bool)
        ensures
            r == !self.border,
    {
        !self.border
    }
}

impl Coord {
    /// A cell drawn at random from a grid of `max_x` by `max_y` cells.
    pub fn random(max_x: u32, max_y: u32, random: &mut StdRng) -> (r: Coord)
        requires
            0 < max_x <= i32::MAX,
            0 < max_y <= i32::MAX,
        ensures
            r.spec_valid_coord(max_x, max_y),
    {
        Coord { x: gen_range(random, 0, max_x) as i32, y: gen_range(random, 0, max_y) as i32 }
    }

    /// The cell that follows this one when the grid is read row by row,
    /// the first cell following the last.
    pub open spec fn spec_successor(self, maze_width: u32, maze_height: u32) -> Coord {
        if self.x + 1 < maze_width {
            Coord { x: (self.x + 1) as i32, y: self.y }
        } else if self.y + 1 < maze_height {
            Coord { x: 0, y: (self.y + 1) as i32 }
        } else {
            Coord { x: 0, y: 0 }
        }
    }

    fn successor(&self, maze_width: u32, maze_height: u32) -> (r: Coord)
        requires
            self.spec_valid_coord(maze_width, maze_height),
            maze_width <= i32::MAX,
            maze_height <= i32::MAX,
        ensures
            r == self.spec_successor(maze_width, maze_height),
            r.spec_valid_coord(maze_width, maze_height),
            maze_width * maze_height >= 2 ==> r != *self,
    {
        assert(maze_width * maze_height >= 2 ==> maze_width >= 2 || maze_height >= 2)
            by (nonlinear_arith)
            requires
                maze_width >= 1,
                maze_height >= 1,
        ;
        if (self.x as i64) + 1 < maze_width as i64 {
            Coord { x: self.x + 1, y: self.y }
        } else if (self.y as i64) + 1 < maze_height as i64 {
            Coord { x: 0, y: self.y + 1 }
        } else {
            Coord { x: 0, y: 0 }
        }
    }
}

impl Config {
    /// `w` is one of the four walls of the cell `c`.
    pub open spec fn bounds(&self, w: Wall, c: Coord) -> bool {
        w == c.spec_north_wall(self) || w == c.spec_east_wall(self) || w == c.spec_south_wall(self)
            || w == c.spec_west_wall(self)
    }

    /// `w` is a wall of this grid: it bounds one of its cells.
    pub open spec fn is_wall(&self, w: Wall) -> bool {
        exists|c: Coord| c.spec_valid_coord(self.width, self.height) && #[trigger] self.bounds(w, c)
    }

    /// `w` bounds a cell that comes before column `x` of row `y` when the
    /// grid is read row by row.
    pub open spec fn is_wall_before(&self, w: Wall, x: int, y: int) -> bool {
        exists|c: Coord|
            c.spec_valid_coord(self.width, self.height) && (c.y < y || (c.y == y && c.x < x))
                && #[trigger] self.bounds(w, c)
    }

    /// `w` is the wall between the cell `c` and its neighbour to the east or
    /// to the south.
    pub open spec fn inner_at(&self, w: Wall, c: Coord) -> bool {
        (c.x + 1 < self.width && w == c.spec_east_wall(self)) || (c.y + 1 < self.height && w
            == c.spec_south_wall(self))
    }

    /// `w` is a wall between two cells of this grid.
    pub open spec fn is_inner_wall(&self, w: Wall) -> bool {
        exists|c: Coord|
            c.spec_valid_coord(self.width, self.height) && #[trigger] self.inner_at(w, c)
    }

    /// `w` is a wall between two cells, to the east or south of a cell that
    /// comes before column `x` of row `y` when the grid is read row by row.
    pub open spec fn is_inner_wall_before(&self, w: Wall, x: int, y: int) -> bool {
        exists|c: Coord|
            c.spec_valid_coord(self.width, self.height) && (c.y < y || (c.y == y && c.x < x))
                && #[trigger] self.inner_at(w, c)
    }

    /// The two cells on either side of a wall: above and below a horizontal
    /// wall, left and right of a vertical one.
    pub open spec fn divided(&self, w: Wall) -> (Coord, Coord) {
        let size = self.cell_size;
        match w.orientation {
            Orientation::Horizontal => (
                Coord {
                    x: cell_index(w.center.x as int, size),
                    y: cell_index(w.center.y - size / 2, size),
                },
                Coord {
                    x: cell_index(w.center.x as int, size),
                    y: cell_index(w.center.y + half_up(size), size),
                },
            ),
            Orientation::Vertical => (
                Coord {
                    x: cell_index(w.center.x - size / 2, size),
                    y: cell_index(w.center.y as int, size),
                },
                Coord {
                    x: cell_index(w.center.x + half_up(size), size),
                    y: cell_index(w.center.y as int, size),
                },
            ),
        }
    }
}

/// Two walls of one grid that stand in the same place are the same wall.
pub proof fn lemma_same_place_same_wall(v: Wall, w: Wall, config: &Config)
    requires
        config.wf(),
        config.is_wall(v),
        config.is_wall(w),
        wall_key(v) == wall_key(w),
    ensures
        v == w,
{
    lemma_wall_key_injective(v, w);
    let a = choose|c: Coord|
        c.spec_valid_coord(config.width, config.height) && #[trigger] config.bounds(v, c);
    let b = choose|c: Coord|
        c.spec_valid_coord(config.width, config.height) && #[trigger] config.bounds(w, c);
    lemma_walls_on_lines(a, config);
    lemma_walls_on_lines(b, config);
    match v.orientation {
        Orientation::Horizontal => {
            let la = if v == a.spec_north_wall(config) {
                a.y as int
            } else {
                a.y + 1
            };
            let lb = if w == b.spec_north_wall(config) {
                b.y as int
            } else {
                b.y + 1
            };
            lemma_row_walls_distinct(a.x as int, la, b.x as int, lb, config);
        },
        Orientation::Vertical => {
            let la = if v == a.spec_west_wall(config) {
                a.x as int
            } else {
                a.x + 1
            };
            let lb = if w == b.spec_west_wall(config) {
                b.x as int
            } else {
                b.x + 1
            };
            lemma_column_walls_distinct(la, a.y as int, lb, b.y as int, config);
        },
    }
}

/// The cells on either side of a wall on a line of the grid.
pub proof fn lemma_divided_on_lines(x: int, y: int, config: &Config)
    requires
        config.wf(),
    ensures
        0 <= x < config.width && 0 <= y <= config.height ==> config.divided(
            row_wall(x, y, config),
        ) == (Coord { x: x as i32, y: (y - 1) as i32 }, Coord { x: x as i32, y: y as i32 }),
        0 <= x <= config.width && 0 <= y < config.height ==> config.divided(
            column_wall(x, y, config),
        ) == (Coord { x: (x - 1) as i32, y: y as i32 }, Coord { x: x as i32, y: y as i32 }),
{
    let size = config.cell_size;
    assert(config.width * size == size * config.width && config.height * size == size
        * config.height) by (nonlinear_arith);
    assert((x - 1) * size == x * size - size && (y - 1) * size == y * size - size)
        by (nonlinear_arith);
    lemma_trunc_div_multiple(x, size as int);
    lemma_trunc_div_multiple(y, size as int);
    lemma_trunc_div_multiple(x - 1, size as int);
    lemma_trunc_div_multiple(y - 1, size as int);
    if 0 <= x <= config.width {
        lemma_pixels_distinct(x, x, config.width as int, size);
    }
    if 0 <= y <= config.height {
        lemma_pixels_distinct(y, y, config.height as int, size);
    }
}

/// The grid with its standing walls, the two ends of the path to find, and
/// the marks by which an algorithm shows its progress.
#[derive(Debug)]
pub struct Maze<'a> {
    pub config: &'a Config,
    /// The walls that stand.
    pub walls: WallSet,
    pub start: Coord,
    pub end: Coord,
    /// The cells an algorithm has visited.
    pub explored: CoordSet,
    /// The cells an algorithm works on in this tick.
    pub highlight_bright: CoordSet,
    pub highlight_medium: CoordSet,
    pub highlight_dark: CoordSet,
}

impl<'a> Maze<'a> {
    /// The grid is well formed and the two ends are distinct cells of it.
    pub open spec fn wf(&self) -> bool {
        &&& self.config.wf()
        &&& self.start.spec_valid_coord(self.config.width, self.config.height)
        &&& self.end.spec_valid_coord(self.config.width, self.config.height)
        &&& self.start != self.end
    }

    /// Every wall of the grid stands and no cell is explored.
    pub open spec fn untouched(&self) -> bool {
        &&& forall|w: Wall| #[trigger] self.config.is_wall(w) ==> self.walls@.contains(w)
        &&& self.explored@ == Set::<Coord>::empty()
    }

    /// Both mazes have the same grid and the same two ends.
    pub open spec fn same_grid(&self, other: &Maze) -> bool {
        &&& *self.config == *other.config
        &&& self.start == other.start
        &&& self.end == other.end
    }

    /// Both mazes carry the same marks.
    pub open spec fn same_marks(&self, other: &Maze) -> bool {
        &&& self.explored@ == other.explored@
        &&& self.highlight_bright@ == other.highlight_bright@
        &&& self.highlight_medium@ == other.highlight_medium@
        &&& self.highlight_dark@ == other.highlight_dark@
    }

    /// The direction in which `to` is the neighbour of the cell `from`.
    pub open spec fn direction_to(&self, from: Coord, to: Coord) -> Option<Direction> {
        let w = self.config.width;
        let h = self.config.height;
        if !from.spec_valid_coord(w, h) {
            None
        } else if from.spec_neighbour(Direction::North, w, h) == Some(to) {
            Some(Direction::North)
        } else if from.spec_neighbour(Direction::East, w, h) == Some(to) {
            Some(Direction::East)
        } else if from.spec_neighbour(Direction::South, w, h) == Some(to) {
            Some(Direction::South)
        } else if from.spec_neighbour(Direction::West, w, h) == Some(to) {
            Some(Direction::West)
        } else {
            None
        }
    }

    /// The neighbours of a cell that no wall separates from it: north, east,
    /// south, west, in that order. A coordinate outside the grid has none.
    pub open spec fn spec_connected_neighbours(&self, coord: Coord) -> Seq<(Coord, Direction)> {
        if coord.spec_valid_coord(self.config.width, self.config.height) {
            coord.spec_neighbours(self.config.width, self.config.height).filter(
                |n: (Coord, Direction)| !self.walls@.contains(coord.spec_wall(n.1, self.config)),
            )
        } else {
            Seq::empty()
        }
    }

    /// A maze with every wall standing and no mark set. The ends come from
    /// the configuration where it fixes them and are drawn at random
    /// otherwise; an end that falls on the start is drawn again.
    pub fn new(config: &'a Config, random: &mut StdRng) -> (maze: Maze<'a>)
        requires
            config.wf(),
            config.width * config.height >= 2,
        ensures
            maze.wf(),
            maze.untouched(),
            maze.config == config,
            forall|w: Wall| maze.walls@.contains(w) <==> config.is_wall(w),
            config.start matches Some(c) ==> maze.start == c,
            config.end matches Some(c) ==> (maze.end == c || maze.start == c),
            maze.explored@ == Set::<Coord>::empty(),
            maze.highlight_bright@ == Set::<Coord>::empty(),
            maze.highlight_medium@ == Set::<Coord>::empty(),
            maze.highlight_dark@ == Set::<Coord>::empty(),
    {
        let width = config.maze_width();
        let height = config.maze_height();
        let mut walls = WallSet::new();
        let mut y: u32 = 0;
        while y < height
            invariant
                config.wf(),
                width == config.width,
                height == config.height,
                y <= height,
                forall|w: Wall| walls@.contains(w) <==> config.is_wall_before(w, 0, y as int),
            decreases height - y,
        {
            let mut x: u32 = 0;
            while x < width
                invariant
                    config.wf(),
                    width == config.width,
                    height == config.height,
                    y < height,
                    x <= width,
                    forall|w: Wall|
                        walls@.contains(w) <==> config.is_wall_before(w, x as int, y as int),
                decreases width - x,
            {
                proof {
                    lemma_config_bounds(config);
                }
                let coord = Coord { x: x as i32, y: y as i32 };
                let around = coord.walls(config);
                let ghost before = walls@;
                proof {
                    assert(config.bounds(around[0], coord));
                    assert(config.bounds(around[1], coord));
                    assert(config.bounds(around[2], coord));
                    assert(config.bounds(around[3], coord));
                    assert forall|w: Wall| before.contains(w) implies config.is_wall(w) by {
                        let c = choose|c: Coord|
                            c.spec_valid_coord(config.width, config.height) && (c.y < y || (c.y == y
                                && c.x < x)) && #[trigger] config.bounds(w, c);
                        assert(config.bounds(w, c));
                    }
                }
                Self::stand(&mut walls, around[0], config);
                Self::stand(&mut walls, around[1], config);
                Self::stand(&mut walls, around[2], config);
                Self::stand(&mut walls, around[3], config);
                proof {
                    assert forall|w: Wall|
                        walls@.contains(w) <==> config.is_wall_before(
                            w,
                            x + 1,
                            y as int,
                        ) by {
                        if config.is_wall_before(w, x + 1, y as int) {
                            let c = choose|c: Coord|
                                c.spec_valid_coord(config.width, config.height) && (c.y < y || (c.y
                                    == y && c.x < x + 1)) && #[trigger] config.bounds(w, c);
                            if c != coord {
                                assert(config.is_wall_before(w, x as int, y as int));
                            }
                        }
                        if walls@.contains(w) {
                            if before.contains(w) {
                                let c = choose|c: Coord|
                                    c.spec_valid_coord(config.width, config.height) && (c.y < y || (
                                    c.y == y && c.x < x)) && #[trigger] config.bounds(w, c);
                                assert(config.bounds(w, c));
                            } else {
                                assert(config.bounds(w, coord));
                            }
                        }
                    }
                }
                x += 1;
            }
            proof {
                assert forall|w: Wall|
                    config.is_wall_before(w, width as int, y as int) <==> config.is_wall_before(
                        w,
                        0,
                        y + 1,
                    ) by {
                    if config.is_wall_before(w, width as int, y as int) {
                        let c = choose|c: Coord|
                            c.spec_valid_coord(config.width, config.height) && (c.y < y || (c.y == y
                                && c.x < width)) && #[trigger] config.bounds(w, c);
                        assert(config.bounds(w, c));
                    }
                    if config.is_wall_before(w, 0, y + 1) {
                        let c = choose|c: Coord|
                            c.spec_valid_coord(config.width, config.height) && (c.y < y + 1 || (c.y
                                == y + 1 && c.x < 0)) && #[trigger] config.bounds(w, c);
                        assert(config.bounds(w, c));
                    }
                }
            }
            y += 1;
        }
        proof {
            assert forall|w: Wall| walls@.contains(w) <==> config.is_wall(w) by {
                if config.is_wall(w) {
                    let c = choose|c: Coord|
                        c.spec_valid_coord(config.width, config.height) && #[trigger] config.bounds(
                            w,
                            c,
                        );
                    assert(config.bounds(w, c));
                    assert(config.is_wall_before(w, 0, height as int));
                }
                if config.is_wall_before(w, 0, height as int) {
                    let c = choose|c: Coord|
                        c.spec_valid_coord(config.width, config.height) && (c.y < height || (c.y
                            == height && c.x < 0)) && #[trigger] config.bounds(w, c);
                    assert(config.bounds(w, c));
                }
            }
            lemma_config_bounds(config);
        }

        let start = match config.start() {
            Some(coord) => coord,
            None => Coord::random(width, height, random),
        };
        let mut end = match config.end() {
            Some(coord) => coord,
            None => Coord::random(width, height, random),
        };
        let mut tries: u32 = 64;
        while start == end && tries > 0
            invariant
                0 < width <= i32::MAX,
                0 < height <= i32::MAX,
                end.spec_valid_coord(width, height),
                config.end matches Some(c) ==> (end == c || start == c),
            decreases tries,
        {
            end = Coord::random(width, height, random);
            tries -= 1;
        }
        if start == end {
            end = start.successor(width, height);
        }

        Maze {
            config,
            walls,
            start,
            end,
            explored: CoordSet::new(),
            highlight_bright: CoordSet::new(),
            highlight_medium: CoordSet::new(),
            highlight_dark: CoordSet::new(),
        }
    }

    /// Puts up one wall of the grid among walls of the grid.
    fn stand(walls: &mut WallSet, wall: Wall, config: &Config)
        requires
            config.wf(),
            config.is_wall(wall),
            forall|w: Wall| old(walls)@.contains(w) ==> config.is_wall(w),
        ensures
            final(walls)@ == old(walls)@.insert(wall),
    {
        walls.insert(wall);
        proof {
            assert forall|v: Wall| walls@.contains(v) == old(walls)@.insert(wall).contains(v) by {
                if old(walls)@.contains(v) && wall_key(v) == wall_key(wall) {
                    lemma_same_place_same_wall(v, wall, config);
                }
                assert(walls@.contains(v) <==> v == wall || (old(walls)@.contains(v) && wall_key(v)
                    != wall_key(wall)));
            }
            assert(walls@ =~= old(walls)@.insert(wall));
        }
    }

    /// How a cell is shown: the ends of the maze come first, then the
    /// marks from the brightest to the darkest, then what is explored.
    pub open spec fn spec_shade(&self, coord: Coord) -> Shade {
        if coord == self.start {
            Shade::Start
        } else if coord == self.end {
            Shade::End
        } else if self.highlight_bright@.contains(coord) {
            Shade::Bright
        } else if self.highlight_medium@.contains(coord) {
            Shade::Medium
        } else if self.highlight_dark@.contains(coord) {
            Shade::Dark
        } else if self.explored@.contains(coord) {
            Shade::Explored
        } else {
            Shade::Plain
        }
    }

    /// How a cell is shown.
    pub fn shade(&self, coord: &Coord) -> (r: Shade)
        ensures
            r == self.spec_shade(*coord),
    {
        if *coord == self.start {
            Shade::Start
        } else if *coord == self.end {
            Shade::End
        } else if self.highlight_bright.contains(coord) {
            Shade::Bright
        } else if self.highlight_medium.contains(coord) {
            Shade::Medium
        } else if self.highlight_dark.contains(coord) {
            Shade::Dark
        } else if self.explored.contains(coord) {
            Shade::Explored
        } else {
            Shade::Plain
        }
    }

    /// Lists one wall of the grid if it stands and is not listed yet.
    fn list_wall(&self, found: &mut Vec<Wall>, listed: &mut WallSet, wall: Wall)
        requires
            self.config.wf(),
            self.config.is_wall(wall),
            old(found)@.no_duplicates(),
            forall|w: Wall| old(found)@.contains(w) <==> old(listed)@.contains(w),
            forall|w: Wall| old(listed)@.contains(w) ==> self.config.is_wall(w),
        ensures
            final(found)@.no_duplicates(),
            forall|w: Wall| final(found)@.contains(w) <==> final(listed)@.contains(w),
            final(listed)@ == if self.walls@.contains(wall) {
                old(listed)@.insert(wall)
            } else {
                old(listed)@
            },
    {
        if self.walls.contains(&wall) {
            if !listed.contains(&wall) {
                Self::stand(listed, wall, self.config);
                found.push(wall);
                proof {
                    let before = old(found)@;
                    assert(found@ == before.push(wall));
                    assert forall|w: Wall| found@.contains(w) <==> listed@.contains(w) by {
                        if found@.contains(w) {
                            let i = choose|i: int| 0 <= i < found@.len() && found@[i] == w;
                            if i < before.len() {
                                assert(before[i] == w);
                                assert(before.contains(w));
                            }
                        }
                        if old(listed)@.contains(w) {
                            assert(before.contains(w));
                            let i = choose|i: int| 0 <= i < before.len() && before[i] == w;
                            assert(found@[i] == w);
                        }
                        if w == wall {
                            assert(found@[before.len() as int] == w);
                        }
                    }
                    assert forall|i: int, j: int|
                        0 <= i < found@.len() && 0 <= j < found@.len() && i != j implies found@[i]
                        != found@[j] by {
                        if i < before.len() && j < before.len() {
                            assert(before[i] != before[j]);
                        } else if i < before.len() {
                            assert(before.contains(before[i]));
                        } else {
                            assert(before.contains(before[j]));
                        }
                    }
                }
            } else {
                assert(listed@ =~= old(listed)@.insert(wall));
            }
        }
    }

    /// The walls of the grid that stand, each once, in the order in which
    /// the cells they bound come when the grid is read row by row.
    pub fn standing_walls(&self) -> (r: Vec<Wall>)
        requires
            self.config.wf(),
        ensures
            r@.no_duplicates(),
            forall|w: Wall| r@.contains(w) <==> self.walls@.contains(w) && self.config.is_wall(w),
    {
        let config = self.config;
        let width = config.maze_width();
        let height = config.maze_height();
        let mut found: Vec<Wall> = Vec::new();
        let mut listed = WallSet::new();
        let mut y: u32 = 0;
        while y < height
            invariant
                config == self.config,
                config.wf(),
                width == config.width,
                height == config.height,
                y <= height,
                found@.no_duplicates(),
                forall|w: Wall| found@.contains(w) <==> listed@.contains(w),
                forall|w: Wall|
                    listed@.contains(w) <==> self.walls@.contains(w) && config.is_wall_before(
                        w,
                        0,
                        y as int,
                    ),
            decreases height - y,
        {
            let mut x: u32 = 0;
            while x < width
                invariant
                    config == self.config,
                    config.wf(),
                    width == config.width,
                    height == config.height,
                    y < height,
                    x <= width,
                    found@.no_duplicates(),
                    forall|w: Wall| found@.contains(w) <==> listed@.contains(w),
                    forall|w: Wall|
                        listed@.contains(w) <==> self.walls@.contains(w) && config.is_wall_before(
                            w,
                            x as int,
                            y as int,
                        ),
                decreases width - x,
            {
                proof {
                    lemma_config_bounds(config);
                }
                let coord = Coord { x: x as i32, y: y as i32 };
                let around = coord.walls(config);
                let ghost before = listed@;
                proof {
                    assert(config.bounds(around[0], coord));
                    assert(config.bounds(around[1], coord));
                    assert(config.bounds(around[2], coord));
                    assert(config.bounds(around[3], coord));
                    assert forall|w: Wall| before.contains(w) implies config.is_wall(w) by {
                        let c = choose|c: Coord|
                            c.spec_valid_coord(config.width, config.height) && (c.y < y || (c.y == y
                                && c.x < x)) && #[trigger] config.bounds(w, c);
                        assert(config.bounds(w, c));
                    }
                }
                self.list_wall(&mut found, &mut listed, around[0]);
                self.list_wall(&mut found, &mut listed, around[1]);
                self.list_wall(&mut found, &mut listed, around[2]);
                self.list_wall(&mut found, &mut listed, around[3]);
                proof {
                    assert forall|w: Wall|
                        listed@.contains(w) <==> self.walls@.contains(w) && config.is_wall_before(
                            w,
                            x + 1,
                            y as int,
                        ) by {
                        if config.is_wall_before(w, x + 1, y as int) {
                            let c = choose|c: Coord|
                                c.spec_valid_coord(config.width, config.height) && (c.y < y || (c.y
                                    == y && c.x < x + 1)) && #[trigger] config.bounds(w, c);
                            if c != coord {
                                assert(config.is_wall_before(w, x as int, y as int));
                            }
                        }
                        if listed@.contains(w) {
                            if before.contains(w) {
                                let c = choose|c: Coord|
                                    c.spec_valid_coord(config.width, config.height) && (c.y < y || (
                                    c.y == y && c.x < x)) && #[trigger] config.bounds(w, c);
                                assert(config.bounds(w, c));
                            } else {
                                assert(config.bounds(w, coord));
                            }
                        }
                    }
                }
                x += 1;
            }
            proof {
                assert forall|w: Wall|
                    config.is_wall_before(w, width as int, y as int) <==> config.is_wall_before(
                        w,
                        0,
                        y + 1,
                    ) by {
                    if config.is_wall_before(w, width as int, y as int) {
                        let c = choose|c: Coord|
                            c.spec_valid_coord(config.width, config.height) && (c.y < y || (c.y == y
                                && c.x < width)) && #[trigger] config.bounds(w, c);
                        assert(config.bounds(w, c));
                    }
                    if config.is_wall_before(w, 0, y + 1) {
                        let c = choose|c: Coord|
                            c.spec_valid_coord(config.width, config.height) && (c.y < y + 1 || (c.y
                                == y + 1 && c.x < 0)) && #[trigger] config.bounds(w, c);
                        assert(config.bounds(w, c));
                    }
                }
            }
            y += 1;
        }
        proof {
            assert forall|w: Wall|
                found@.contains(w) <==> self.walls@.contains(w) && config.is_wall(w) by {
                if config.is_wall(w) {
                    let c = choose|c: Coord|
                        c.spec_valid_coord(config.width, config.height) && #[trigger] config.bounds(
                            w,
                            c,
                        );
                    assert(config.bounds(w, c));
                    assert(config.is_wall_before(w, 0, height as int));
                }
                if config.is_wall_before(w, 0, height as int) {
                    let c = choose|c: Coord|
                        c.spec_valid_coord(config.width, config.height) && (c.y < height || (c.y
                            == height && c.x < 0)) && #[trigger] config.bounds(w, c);
                    assert(config.bounds(w, c));
                }
            }
        }
        found
    }

    /// The two cells on either side of a wall: above and below a horizontal
    /// wall, left and right of a vertical one.
    pub fn divided_coords(&self, wall: &Wall) -> (r: (Coord, Coord))
        requires
            self.config.wf(),
        ensures
            r == self.config.divided(*wall),
    {
        let size = self.config.cell_width();
        let half: i64 = (size / 2) as i64;
        let up: i64 = ((size as u64 + 1) / 2) as i64;
        let x = wall.center.x as i64;
        let y = wall.center.y as i64;
        match wall.orientation {
            Orientation::Horizontal => (
                Coord { x: cell_of(x, size), y: cell_of(y - half, size) },
                Coord { x: cell_of(x, size), y: cell_of(y + up, size) },
            ),
            Orientation::Vertical => (
                Coord { x: cell_of(x - half, size), y: cell_of(y, size) },
                Coord { x: cell_of(x + up, size), y: cell_of(y, size) },
            ),
        }
    }

    /// Takes down a wall that is not on the outer boundary.
    pub fn remove_wall(&mut self, wall: &Wall) -> (r: Result<(), Error>)
        ensures
            final(self).same_grid(old(self)),
            final(self).same_marks(old(self)),
            wall.border ==> r == Err::<(), Error>(Error::BorderWall(*wall)) && final(self).walls@
                == old(self).walls@,
            !wall.border ==> r is Ok && final(self).walls@ == old(self).walls@.remove(*wall),
    {
        if !wall.removable() {
            return Err(Error::BorderWall(*wall));
        }
        self.walls.remove(wall);
        Ok(())
    }

    /// Takes down the wall between two neighbouring cells.
    pub fn link(&mut self, c1: &Coord, c2: &Coord) -> (r: Result<(), Error>)
        requires
            old(self).wf(),
        ensures
            final(self).same_grid(old(self)),
            final(self).same_marks(old(self)),
            match old(self).direction_to(*c1, *c2) {
                Some(d) => r is Ok && final(self).walls@ == old(self).walls@.remove(
                    c1.spec_wall(d, old(self).config),
                ) && !c1.spec_wall(d, old(self).config).border,
                None => r == Err::<(), Error>(Error::NotNeighbours(*c1, *c2)) && final(self).walls@
                    == old(self).walls@,
            },
    {
        if !c1.valid_coord(self.config.maze_width(), self.config.maze_height()) {
            return Err(Error::NotNeighbours(*c1, *c2));
        }
        let directions = [Direction::North, Direction::East, Direction::South, Direction::West];
        let mut i: usize = 0;
        while i < 4
            invariant
                i <= 4,
                self.wf(),
                *self == *old(self),
                c1.spec_valid_coord(self.config.width, self.config.height),
                directions[0] == Direction::North,
                directions[1] == Direction::East,
                directions[2] == Direction::South,
                directions[3] == Direction::West,
                forall|j: int|
                    0 <= j < i ==> c1.spec_neighbour(
                        #[trigger] directions[j],
                        self.config.width,
                        self.config.height,
                    ) != Some(*c2),
            decreases 4 - i,
        {
            let direction = directions[i];
            if let Some(n) = self.neighbour(c1, &direction) {
                if n == *c2 {
                    let wall = self.wall(c1, &direction);
                    proof {
                        lemma_walls_on_lines(*c1, self.config);
                    }
                    return self.remove_wall(&wall);
                }
            }
            i += 1;
        }
        Err(Error::NotNeighbours(*c1, *c2))
    }

    /// The four walls of a cell: north, east, south, west.
    pub fn walls(&self, coord: &Coord) -> (r: [Wall; 4])
        requires
            self.config.wf(),
            coord.spec_valid_coord(self.config.width, self.config.height),
        ensures
            r[0] == coord.spec_north_wall(self.config),
            r[1] == coord.spec_east_wall(self.config),
            r[2] == coord.spec_south_wall(self.config),
            r[3] == coord.spec_west_wall(self.config),
    {
        coord.walls(self.config)
    }

    /// The wall that bounds a cell in a direction.
    pub fn wall(&self, coord: &Coord, direction: &Direction) -> (r: Wall)
        requires
            self.config.wf(),
            coord.spec_valid_coord(self.config.width, self.config.height),
        ensures
            r == coord.spec_wall(*direction, self.config),
    {
        coord.wall(direction, self.config)
    }

    pub fn north_wall(&self, coord: &Coord) -> (r: Wall)
        requires
            self.config.wf(),
            coord.spec_valid_coord(self.config.width, self.config.height),
        ensures
            r == coord.spec_north_wall(self.config),
    {
        coord.north_wall(self.config)
    }

    pub fn east_wall(&self, coord: &Coord) -> (r: Wall)
        requires
            self.config.wf(),
            coord.spec_valid_coord(self.config.width, self.config.height),
        ensures
            r == coord.spec_east_wall(self.config),
    {
        coord.east_wall(self.config)
    }

    pub fn south_wall(&self, coord: &Coord) -> (r: Wall)
        requires
            self.config.wf(),
            coord.spec_valid_coord(self.config.width, self.config.height),
        ensures
            r == coord.spec_south_wall(self.config),
    {
        coord.south_wall(self.config)
    }

    pub fn west_wall(&self, coord: &Coord) -> (r: Wall)
        requires
            self.config.wf(),
            coord.spec_valid_coord(self.config.width, self.config.height),
        ensures
            r == coord.spec_west_wall(self.config),
    {
        coord.west_wall(self.config)
    }

    /// The neighbour of a cell in a direction, if it lies inside the grid.
    pub fn neighbour(&self, coord: &Coord, direction: &Direction) -> (r: Option<Coord>)
        ensures
            r == coord.spec_neighbour(*direction, self.config.width, self.config.height),
    {
        coord.neighbour(direction, self.config.maze_width(), self.config.maze_height())
    }

    /// The neighbours of a cell inside the grid: north, east, south, west.
    pub fn neighbours(&self, coord: &Coord) -> (r: Vec<(Coord, Direction)>)
        ensures
            r@ == coord.spec_neighbours(self.config.width, self.config.height),
    {
        coord.neighbours(self.config.maze_width(), self.config.maze_height())
    }

    /// The neighbours of a cell that no wall separates from it.
    pub fn connected_neighbours(&self, coord: &Coord) -> (r: Vec<(Coord, Direction)>)
        requires
            self.config.wf(),
        ensures
            r@ == self.spec_connected_neighbours(*coord),
    {
        let mut open: Vec<(Coord, Direction)> = Vec::new();
        if !coord.valid_coord(self.config.maze_width(), self.config.maze_height()) {
            return open;
        }
        let around = self.neighbours(coord);
        let ghost keep = |n: (Coord, Direction)|
            !self.walls@.contains(coord.spec_wall(n.1, self.config));
        let mut i: usize = 0;
        while i < around.len()
            invariant
                i <= around.len(),
                self.config.wf(),
                coord.spec_valid_coord(self.config.width, self.config.height),
                keep == |n: (Coord, Direction)|
                    !self.walls@.contains(coord.spec_wall(n.1, self.config)),
                open@ == around@.take(i as int).filter(keep),
            decreases around.len() - i,
        {
            let (n, d) = around[i];
            let wall = self.wall(coord, &d);
            proof {
                assert(around@.take(i + 1) == around@.take(i as int).push(around@[i as int]));
                lemma_filter_push(around@.take(i as int), keep, around@[i as int]);
            }
            if !self.walls.contains(&wall) {
                open.push((n, d));
            }
            i += 1;
        }
        assert(around@.take(around.len() as int) == around@);
        open
    }

    pub fn maze_width(&self) -> (r: u32)
        ensures
            r == self.config.width,
    {
        self.config.maze_width()
    }

    pub fn maze_height(&self) -> (r: u32)
        ensures
            r == self.config.height,
    {
        self.config.maze_height()
    }
}

} // verus!
