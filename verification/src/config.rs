use vstd::prelude::*;
use crate::generator::GeneratorType;
use crate::maze::Coord;
use crate::solver::SolverType;

verus! {

pub const COLOR_BACKGROUND: (u8, u8, u8) = (7, 16, 19);
pub const COLOR_START: (u8, u8, u8) = (149, 198, 35);
pub const COLOR_END: (u8, u8, u8) = (229, 88, 18);
pub const COLOR_WALL: (u8, u8, u8) = (239, 231, 218);
pub const COLOR_EXPLORED: (u8, u8, u8) = (14, 71, 73);
pub const COLOR_HIGHLIGHT_BRIGHT: (u8, u8, u8) = (163, 187, 173);
pub const COLOR_HIGHLIGHT_MEDIUM: (u8, u8, u8) = (53, 114, 102);
pub const COLOR_HIGHLIGHT_DARK: (u8, u8, u8) = (57, 104, 106);

/// What a run is made with: the algorithms, the grid, and the pace.
#[derive(Debug, Clone, Copy)]
pub struct Config {
    /// The algorithm that builds the maze.
    pub generator: GeneratorType,
    /// The algorithm that solves the maze.
    pub solver: SolverType,
    /// Updates per second.
    pub ups: u32,
    /// The side of a cell in pixels.
    pub cell_size: u32,
    /// The width of the maze in cells.
    pub width: u32,
    /// The height of the maze in cells.
    pub height: u32,
    /// Where the path starts, if fixed.
    pub start: Option<Coord>,
    /// Where the path ends, if fixed.
    pub end: Option<Coord>,
    /// Build the maze in one go, without showing the steps.
    pub no_interactive_gen: bool,
    /// Solve the maze in one go, without showing the steps.
    pub no_interactive_solve: bool,
    /// Keep the frame rate off the console.
    pub print_fps: bool,
    /// A fixed seed for the random source.
    pub seed: Option<u32>,
}

impl Config {
    /// A configuration that a maze can be built from: the grid has at least
    /// one cell, a cell has at least one pixel, every pixel coordinate fits a
    /// signed 32-bit integer, and a fixed start or end lies inside the grid.
    pub open spec fn wf(&self) -> bool {
        &&& 1 <= self.cell_size
        &&& 1 <= self.width
        &&& 1 <= self.height
        &&& self.cell_size * self.width <= i32::MAX
        &&& self.cell_size * self.height <= i32::MAX
        &&& (self.start matches Some(c) ==> c.spec_valid_coord(self.width, self.height))
        &&& (self.end matches Some(c) ==> c.spec_valid_coord(self.width, self.height))
    }

    /// Tells whether a maze can be built from this configuration.
    pub fn is_valid(&self) -> (r: bool)
        ensures
            r == self.wf(),
    {
        assert(self.cell_size * self.width <= u64::MAX && self.cell_size * self.height <= u64::MAX)
            by (nonlinear_arith)
            requires
                self.cell_size <= u32::MAX,
                self.width <= u32::MAX,
                self.height <= u32::MAX,
        ;
        let fits_x = (self.cell_size as u64) * (self.width as u64) <= 0x7fff_ffff;
        let fits_y = (self.cell_size as u64) * (self.height as u64) <= 0x7fff_ffff;
        let start_ok = match self.start {
            Some(c) => c.valid_coord(self.width, self.height),
            None => true,
        };
        let end_ok = match self.end {
            Some(c) => c.valid_coord(self.width, self.height),
            None => true,
        };
        1 <= self.cell_size && 1 <= self.width && 1 <= self.height && fits_x && fits_y && start_ok
            && end_ok
    }

    #[inline]
    pub fn generator(&self) -> (r: GeneratorType)
        ensures
            r == self.generator,
    {
        self.generator
    }

    #[inline]
    pub fn solver(&self) -> (r: SolverType)
        ensures
            r == self.solver,
    {
        self.solver
    }

    #[inline]
    pub fn ups(&self) -> (r: u32)
        ensures
            r == self.ups,
    {
        self.ups
    }

    #[inline]
    pub fn cell_width(&self) -> (r: u32)
        ensures
            r == self.cell_size,
    {
        self.cell_size
    }

    #[inline]
    pub fn cell_height(&self) -> (r: u32)
        ensures
            r == self.cell_size,
    {
        self.cell_size
    }

    #[inline]
    pub fn maze_width(&self) -> (r: u32)
        ensures
            r == self.width,
    {
        self.width
    }

    #[inline]
    pub fn maze_height(&self) -> (r: u32)
        ensures
            r == self.height,
    {
        self.height
    }

    /// The width of the window in pixels.
    #[inline]
    pub fn window_width(&self) -> (r: u32)
        requires
            self.cell_size * self.width <= u32::MAX,
        ensures
            r == self.cell_size * self.width,
    {
        self.cell_width() * self.maze_width()
    }

    /// The height of the window in pixels.
    #[inline]
    pub fn window_height(&self) -> (r: u32)
        requires
            self.cell_size * self.height <= u32::MAX,
        ensures
            r == self.cell_size * self.height,
    {
        self.cell_height() * self.maze_height()
    }

    #[inline]
    pub fn start(&self) -> (r: Option<Coord>)
        ensures
            r == self.start,
    {
        self.start
    }

    #[inline]
    pub fn end(&self) -> (r: Option<Coord>)
        ensures
            r == self.end,
    {
        self.end
    }

    #[inline]
    pub fn interactive_gen(&self) -> (r: bool)
        ensures
            r == !self.no_interactive_gen,
    {
        !self.no_interactive_gen
    }

    #[inline]
    pub fn interactive_solve(&self) -> (r: bool)
        ensures
            r == !self.no_interactive_solve,
    {
        !self.no_interactive_solve
    }

    #[inline]
    pub fn print_fps(&self) -> (r: bool)
        ensures
            r == !self.print_fps,
    {
        !self.print_fps
    }

    /// The four bytes of the seed, most significant first, each widened to a
    /// word of seed material.
    #[inline]
    pub fn seed(&self) -> (r: Option<[usize; 4]>)
        ensures
            self.seed is None <==> r is None,
            self.seed matches Some(s) ==> {
                let a = r->0;
                &&& a[0] == s / 0x100_0000
                &&& a[1] == s / 0x1_0000 % 0x100
                &&& a[2] == s / 0x100 % 0x100
                &&& a[3] == s % 0x100
            },
    {
        match self.seed {
            None => None,
            Some(seed) => {
                let b1: u32 = (seed >> 24) & 0xff;
                let b2: u32 = (seed >> 16) & 0xff;
                let b3: u32 = (seed >> 8) & 0xff;
                let b4: u32 = seed & 0xff;
                assert(b1 == seed / 0x100_0000) by (bit_vector)
                    requires
                        b1 == (seed >> 24) & 0xff,
                ;
                assert(b2 == seed / 0x1_0000 % 0x100) by (bit_vector)
                    requires
                        b2 == (seed >> 16) & 0xff,
                ;
                assert(b3 == seed / 0x100 % 0x100) by (bit_vector)
                    requires
                        b3 == (seed >> 8) & 0xff,
                ;
                assert(b4 == seed % 0x100) by (bit_vector)
                    requires
                        b4 == seed & 0xff,
                ;
                Some([b1 as usize, b2 as usize, b3 as usize, b4 as usize])
            },
        }
    }
}

impl Default for Config {
    /// Depth-first generation and A* solving on a grid of 32 by 18 cells of
    /// 40 pixels, 60 updates per second, every step shown.
    fn default() -> (r: Config)
        ensures
            r == (Config {
                generator: GeneratorType::DFS,
                solver: SolverType::AStar,
                ups: 60,
                cell_size: 40,
                width: 32,
                height: 18,
                start: None,
                end: None,
                no_interactive_gen: false,
                no_interactive_solve: false,
                print_fps: false,
                seed: None,
            }),
            r.wf(),
    {
        Config {
            generator: GeneratorType::DFS,
            solver: SolverType::AStar,
            ups: 60,
            cell_size: 40,
            width: 32,
            height: 18,
            start: None,
            end: None,
            no_interactive_gen: false,
            no_interactive_solve: false,
            print_fps: false,
            seed: None,
        }
    }
}

} // verus!
