use rand::StdRng;
use vstd::prelude::*;
use crate::error::Error;
use crate::generator::Generator;
use crate::maze::{lemma_config_bounds, Coord, Direction, Maze, Wall};
use crate::partition::{joined, renamed, same_label, Partition};
use crate::passages::{
    all_cells, forest_over, lemma_forest_attach, lemma_forest_merge, lemma_forest_new,
    lemma_forest_seed, lemma_forest_step, lemma_full_forest_perfect, perfect,
};
use crate::random::gen_bool;
use crate::sets::CoordSet;

verus! {

/// The two sweeps over a row.
#[derive(Debug, Clone, Copy, PartialEq, Eq, Structural)]
pub enum EllerMode {
    /// From left to right: cells of the row are united.
    Horizontal,
    /// From right to left: sets are carried down into the next row.
    Vertical,
}

/// Eller's algorithm: the maze is built row by row, with the cells that are
/// linked so far kept in numbered sets.
pub struct Eller {
    current: Coord,
    last_row: i32,
    mode: EllerMode,
    sets: Partition,
    last_set: usize,
}

/// What the algorithm knows between two ticks.
pub struct EllerState {
    /// The cell the next tick works on.
    pub current: Coord,
    /// The row at which the algorithm ends.
    pub last_row: i32,
    pub mode: EllerMode,
    /// The number of the set of each cell met so far.
    pub sets: Map<Coord, usize>,
    /// The highest number given to a set.
    pub last_set: usize,
}

/// What a tick comes to.
pub struct EllerOutcome {
    pub state: EllerState,
    pub walls: Set<Wall>,
    pub explored: Set<Coord>,
    pub bright: Set<Coord>,
    pub medium: Set<Coord>,
    pub dark: Set<Coord>,
    pub result: Result<(), Error>,
}

/// The cells of a row.
pub open spec fn row(y: i32, width: u32) -> Set<Coord> {
    Set::new(|c: Coord| 0 <= c.x < width && c.y == y)
}

fn light_row(marks: &mut CoordSet, y: i32, width: u32)
    requires
        width <= i32::MAX,
    ensures
        final(marks)@ == old(marks)@.union(row(y, width)),
{
    let mut x: u32 = 0;
    while x < width
        invariant
            x <= width <= i32::MAX,
            forall|c: Coord| #[trigger]
                marks@.contains(c) <==> old(marks)@.contains(c) || (0 <= c.x < x && c.y == y),
        decreases width - x,
    {
        marks.insert(Coord { x: x as i32, y });
        x += 1;
    }
    assert(marks@ =~= old(marks)@.union(row(y, width)));
}

impl View for Eller {
    type V = EllerState;

    closed spec fn view(&self) -> EllerState {
        EllerState {
            current: self.current,
            last_row: self.last_row,
            mode: self.mode,
            sets: self.sets@,
            last_set: self.last_set,
        }
    }
}

impl Eller {
    /// A member of the set `set` in the row of the current cell has its
    /// south wall down.
    pub open spec fn carries(s: EllerState, maze: &Maze, set: usize) -> bool {
        exists|c: Coord|
            {
                &&& c.spec_valid_coord(maze.config.width, maze.config.height)
                &&& c.y == s.current.y
                &&& #[trigger] s.sets.contains_key(c)
                &&& s.sets[c] == set
                &&& !maze.walls@.contains(c.spec_south_wall(maze.config))
            }
    }

    /// In the sweep from right to left, the set of the current cell must be
    /// carried down now: the cell to the west is in another set, and no
    /// member in this row has its south wall down.
    pub open spec fn forced(s: EllerState, maze: &Maze) -> bool {
        let west = s.current.spec_neighbour(
            Direction::West,
            maze.config.width,
            maze.config.height,
        );
        let last_in_set = match west {
            Some(c) => !same_label(s.sets, c, s.current),
            None => true,
        };
        last_in_set && !Eller::carries(s, maze, s.sets[s.current])
    }

    /// The next tick depends on a coin.
    pub open spec fn spec_wants_coin(s: EllerState, maze: &Maze) -> bool {
        s.sets.contains_key(s.current) && match s.mode {
            EllerMode::Horizontal => match s.current.spec_neighbour(
                Direction::East,
                maze.config.width,
                maze.config.height,
            ) {
                Some(n) => !same_label(s.sets, s.current, n) && s.current.y != s.last_row,
                None => false,
            },
            EllerMode::Vertical => !Eller::forced(s, maze),
        }
    }

    /// The state with a cell in a set of its own, under the next number.
    pub open spec fn with_new_set(s: EllerState, c: Coord) -> EllerState {
        EllerState {
            sets: s.sets.insert(c, (s.last_set + 1) as usize),
            last_set: (s.last_set + 1) as usize,
            ..s
        }
    }

    /// What a tick of an algorithm that is not done comes to, given the coin.
    ///
    /// From left to right, the current cell is united with its eastern
    /// neighbour if they are in different sets and the coin, or the last
    /// row, says so; a neighbour left without a set gets a new one. From
    /// right to left, the current cell is linked to its southern neighbour
    /// if the coin says so or its set must be carried down now.
    pub open spec fn outcome(s: EllerState, maze: &Maze, coin: bool) -> EllerOutcome {
        let c = s.current;
        let w = maze.config.width;
        let h = maze.config.height;
        let seen = maze.explored@.insert(c);
        let lit = row(c.y, w);
        let only = Set::<Coord>::empty().insert(c);
        let none = Set::<Coord>::empty();
        let idle = EllerOutcome {
            state: s,
            walls: maze.walls@,
            explored: seen,
            bright: only,
            medium: none,
            dark: lit,
            result: Ok(()),
        };
        if !s.sets.contains_key(c) {
            EllerOutcome {
                explored: maze.explored@,
                bright: none,
                medium: maze.highlight_medium@,
                dark: maze.highlight_dark@,
                result: Err(Error::MissingSet(c)),
                ..idle
            }
        } else {
            match s.mode {
                EllerMode::Horizontal => match c.spec_neighbour(Direction::East, w, h) {
                    None => EllerOutcome {
                        state: EllerState { mode: EllerMode::Vertical, ..s },
                        ..idle
                    },
                    Some(n) => if !same_label(s.sets, c, n) && (c.y == s.last_row || coin) {
                        if c.spec_valid_coord(w, h) {
                            EllerOutcome {
                                state: EllerState { current: n, sets: joined(s.sets, c, n), ..s },
                                walls: maze.walls@.remove(c.spec_east_wall(maze.config)),
                                medium: none.insert(n),
                                ..idle
                            }
                        } else {
                            EllerOutcome { result: Err(Error::NotNeighbours(c, n)), ..idle }
                        }
                    } else if !s.sets.contains_key(n) {
                        EllerOutcome {
                            state: EllerState { current: n, ..Eller::with_new_set(s, n) },
                            ..idle
                        }
                    } else {
                        EllerOutcome { state: EllerState { current: n, ..s }, ..idle }
                    },
                },
                EllerMode::Vertical => {
                    let south = c.spec_neighbour(Direction::South, w, h);
                    let west = c.spec_neighbour(Direction::West, w, h);
                    let carry = (Eller::forced(s, maze) || coin) && south is Some && !same_label(
                        s.sets,
                        c,
                        south->0,
                    );
                    if carry && !c.spec_valid_coord(w, h) {
                        EllerOutcome { result: Err(Error::NotNeighbours(c, south->0)), ..idle }
                    } else {
                        let linked = if carry {
                            EllerOutcome {
                                state: EllerState { sets: joined(s.sets, c, south->0), ..s },
                                walls: maze.walls@.remove(c.spec_south_wall(maze.config)),
                                explored: seen.insert(south->0),
                                medium: none.insert(south->0),
                                ..idle
                            }
                        } else {
                            idle
                        };
                        match west {
                            Some(n) => EllerOutcome {
                                state: EllerState { current: n, ..linked.state },
                                ..linked
                            },
                            None => {
                                let turned = EllerState {
                                    mode: EllerMode::Horizontal,
                                    ..linked.state
                                };
                                match south {
                                    Some(n) => if turned.sets.contains_key(n) {
                                        EllerOutcome {
                                            state: EllerState { current: n, ..turned },
                                            ..linked
                                        }
                                    } else {
                                        EllerOutcome {
                                            state: EllerState {
                                                current: n,
                                                ..Eller::with_new_set(turned, n)
                                            },
                                            ..linked
                                        }
                                    },
                                    None => EllerOutcome { state: turned, ..linked },
                                }
                            },
                        }
                    }
                },
            }
        }
    }

    /// The algorithm and the maze are as an outcome says.
    pub open spec fn agrees(out: EllerOutcome, after: &Eller, result: &Maze, r: Result<(), Error>)
        -> bool {
        &&& after@ == out.state
        &&& result.walls@ == out.walls
        &&& result.explored@ == out.explored
        &&& result.highlight_bright@ == out.bright
        &&& result.highlight_medium@ == out.medium
        &&& result.highlight_dark@ == out.dark
        &&& r == out.result
    }

    /// A tick is a function of the algorithm, the maze and the coin: what it
    /// comes to once, it comes to again.
    pub proof fn lemma_advance_repeats(
        before: EllerState,
        maze: &Maze,
        coin: bool,
        first: (&Eller, &Maze, Result<(), Error>),
        second: (&Eller, &Maze, Result<(), Error>),
    )
        requires
            Eller::agrees(Eller::outcome(before, maze, coin), first.0, first.1, first.2),
            Eller::agrees(Eller::outcome(before, maze, coin), second.0, second.1, second.2),
        ensures
            first.0@ == second.0@,
            first.1.walls@ == second.1.walls@,
            first.1.same_marks(second.1),
            first.2 == second.2,
    {
        if first.2 is Ok && second.2 is Ok {
            assert(first.2->Ok_0 == second.2->Ok_0);
        }
    }

    /// The algorithm at the first cell of the first row, in a set of its
    /// own.
    pub fn new(maze: &Maze) -> (g: Eller)
        requires
            maze.wf(),
        ensures
            g.wf(),
            g@ == (EllerState {
                current: Coord { x: 0, y: 0 },
                last_row: (maze.config.height - 1) as i32,
                mode: EllerMode::Horizontal,
                sets: Map::<Coord, usize>::empty().insert(Coord { x: 0, y: 0 }, 0),
                last_set: 0,
            }),
            maze.untouched() ==> g.inv(maze),
    {
        proof {
            lemma_config_bounds(maze.config);
        }
        let current = Coord { x: 0, y: 0 };
        let mut sets = Partition::new();
        sets.place(current, 0);
        let g = Eller {
            current,
            last_row: (maze.maze_height() - 1) as i32,
            mode: EllerMode::Horizontal,
            sets,
            last_set: 0,
        };
        proof {
            if maze.untouched() {
                g@.lemma_inv_at_start(maze);
            }
        }
        g
    }

    /// Tells whether both cells are in a set, and in the same one.
    pub fn same_set(&self, c1: &Coord, c2: &Coord) -> (r: bool)
        ensures
            r == same_label(self@.sets, *c1, *c2),
    {
        self.sets.same_set(c1, c2)
    }

    /// Puts a cell into a set of its own, under the next number; a cell
    /// that was in a set leaves it. With a cell that was in no set the
    /// algorithm can go on as before.
    pub fn new_set(&mut self, c: Coord)
        requires
            old(self).wf(),
        ensures
            final(self)@ == Eller::with_new_set(old(self)@, c),
            !old(self)@.sets.contains_key(c) ==> final(self).wf(),
    {
        proof {
            self.sets.lemma_size_bound();
        }
        let next_set = self.last_set + 1;
        self.sets.place(c, next_set);
        self.last_set = next_set;
    }

    /// Puts a cell into the set of the number given.
    pub fn add(&mut self, c: Coord, set: usize)
        requires
            old(self).wf(),
        ensures
            final(self).wf(),
            final(self)@ == (EllerState { sets: old(self)@.sets.insert(c, set), ..old(self)@ }),
    {
        self.sets.place(c, set);
    }

    /// Unites the set of `c2` with the set of `c1`; a `c2` that is in no
    /// set joins the set of `c1` alone.
    pub fn join(&mut self, c1: &Coord, c2: Coord)
        requires
            old(self).wf(),
            old(self)@.sets.contains_key(*c1),
            !same_label(old(self)@.sets, *c1, c2),
        ensures
            final(self).wf(),
            final(self)@ == (EllerState { sets: joined(old(self)@.sets, *c1, c2), ..old(self)@ }),
    {
        let c1_set = match self.sets.find(c1) {
            Some(set) => set,
            None => {
                return ;
            },
        };
        match self.sets.find(&c2) {
            None => {
                self.add(c2, c1_set);
            },
            Some(c2_set) => {
                self.sets.rename(c2_set, c1_set);
            },
        }
    }

    /// Tells whether a member of the set in the row of the current cell has
    /// its south wall down.
    pub fn connected_vertically(&self, set: usize, maze: &Maze) -> (r: bool)
        requires
            maze.config.wf(),
        ensures
            r == Eller::carries(self@, maze, set),
    {
        proof {
            lemma_config_bounds(maze.config);
        }
        let width = maze.maze_width();
        let height = maze.maze_height();
        let y = self.current.y;
        if y < 0 || y as i64 >= height as i64 {
            return false;
        }
        let mut x: u32 = 0;
        while x < width
            invariant
                x <= width,
                width == maze.config.width,
                height == maze.config.height,
                width <= i32::MAX,
                maze.config.wf(),
                y == self.current.y,
                0 <= y < height,
                forall|c: Coord|
                    c.spec_valid_coord(width, height) && c.y == y && c.x < x
                        && #[trigger] self@.sets.contains_key(c) && self@.sets[c] == set
                        ==> maze.walls@.contains(c.spec_south_wall(maze.config)),
            decreases width - x,
        {
            let c = Coord { x: x as i32, y };
            match self.sets.find(&c) {
                Some(found) => {
                    if found == set {
                        let wall = maze.south_wall(&c);
                        if !maze.walls.contains(&wall) {
                            assert(self@.sets.contains_key(c));
                            return true;
                        }
                    }
                },
                None => {},
            }
            x += 1;
        }
        false
    }

    /// Tells whether the next tick depends on a coin.
    pub fn wants_coin(&self, maze: &Maze) -> (r: bool)
        requires
            maze.config.wf(),
        ensures
            r == Eller::spec_wants_coin(self@, maze),
    {
        let current = self.current;
        let current_set = match self.sets.find(&current) {
            Some(set) => set,
            None => {
                return false;
            },
        };
        match self.mode {
            EllerMode::Horizontal => match maze.neighbour(&current, &Direction::East) {
                Some(n) => !self.same_set(&current, &n) && current.y != self.last_row,
                None => false,
            },
            EllerMode::Vertical => {
                let last_in_set = match maze.neighbour(&current, &Direction::West) {
                    Some(c) => !self.same_set(&c, &current),
                    None => true,
                };
                let connected = self.connected_vertically(current_set, maze);
                !(last_in_set && !connected)
            },
        }
    }

    /// One tick with the coin given.
    pub fn advance(&mut self, maze: &mut Maze, coin: bool) -> (r: Result<(), Error>)
        requires
            old(self).wf(),
            old(maze).wf(),
        ensures
            final(self).wf(),
            final(maze).same_grid(old(maze)),
            if old(self).done() {
                &&& r is Ok
                &&& *final(self) == *old(self)
                &&& final(maze).walls@ == old(maze).walls@
                &&& final(maze).explored@ == old(maze).explored@
                &&& final(maze).highlight_bright@ == Set::<Coord>::empty()
                &&& final(maze).highlight_medium@ == old(maze).highlight_medium@
                &&& final(maze).highlight_dark@ == old(maze).highlight_dark@
            } else {
                Eller::agrees(Eller::outcome(old(self)@, old(maze), coin), final(self), final(maze), r)
            },
            forall|w: Wall|
                w.border && old(maze).walls@.contains(w) ==> #[trigger] final(maze).walls@.contains(
                    w,
                ),
    {
        maze.highlight_bright.clear();
        if self.is_done() {
            return Ok(());
        }
        proof {
            lemma_config_bounds(maze.config);
        }
        let current = self.current;
        let current_set = match self.sets.find(&current) {
            Some(set) => set,
            None => {
                return Err(Error::MissingSet(current));
            },
        };
        maze.highlight_medium.clear();
        maze.highlight_dark.clear();
        light_row(&mut maze.highlight_dark, current.y, maze.config.maze_width());
        maze.highlight_bright.insert(current);
        maze.explored.insert(current);
        assert(maze.highlight_dark@ =~= row(current.y, maze.config.width));

        match self.mode {
            EllerMode::Horizontal => {
                let last_row = current.y == self.last_row;
                match maze.neighbour(&current, &Direction::East) {
                    Some(neighbour) => {
                        if !self.same_set(&current, &neighbour) && (last_row || coin) {
                            match maze.link(&current, &neighbour) {
                                Ok(()) => {},
                                Err(e) => {
                                    return Err(e);
                                },
                            }
                            self.join(&current, neighbour);
                            maze.highlight_medium.insert(neighbour);
                        } else if self.sets.find(&neighbour).is_none() {
                            self.new_set(neighbour);
                        }
                        self.current = neighbour;
                    },
                    None => {
                        self.mode = EllerMode::Vertical;
                    },
                }
            },
            EllerMode::Vertical => {
                let west = maze.neighbour(&current, &Direction::West);
                let south = maze.neighbour(&current, &Direction::South);
                let last_in_set = match west {
                    Some(c) => !self.same_set(&c, &current),
                    None => true,
                };
                let connected = self.connected_vertically(current_set, maze);
                let force_join = last_in_set && !connected;

                if force_join || coin {
                    if let Some(neighbour) = south {
                        if !self.same_set(&current, &neighbour) {
                            match maze.link(&current, &neighbour) {
                                Ok(()) => {},
                                Err(e) => {
                                    return Err(e);
                                },
                            }
                            self.join(&current, neighbour);
                            maze.explored.insert(neighbour);
                            maze.highlight_medium.insert(neighbour);
                        }
                    }
                }
                match west {
                    Some(neighbour) => {
                        self.current = neighbour;
                    },
                    None => {
                        self.mode = EllerMode::Horizontal;
                        if let Some(neighbour) = south {
                            if self.sets.find(&neighbour).is_none() {
                                self.new_set(neighbour);
                            }
                            self.current = neighbour;
                        }
                    },
                }
            },
        }

        Ok(())
    }
}

/// Every cell of the grid up to column `x` of row `y`, read row by row, is
/// in a set.
pub open spec fn filled(sets: Map<Coord, usize>, maze: &Maze, y: int, x: int) -> bool {
    forall|a: Coord|
        a.spec_valid_coord(maze.config.width, maze.config.height) && (a.y < y || (a.y == y && a.x
            <= x)) ==> #[trigger] sets.contains_key(a)
}

/// Every cell in a set is a cell of the grid above row `y`, or in row `y`
/// behind column `x`.
pub open spec fn below(sets: Map<Coord, usize>, maze: &Maze, y: int, x: int) -> bool {
    forall|a: Coord| #[trigger]
        sets.contains_key(a) ==> a.spec_valid_coord(maze.config.width, maze.config.height) && (a.y
            < y || (a.y == y && a.x > x))
}

/// The set of the cell `a` has a member in row `y + 1`, or in row `y` at or
/// before column `x`.
pub open spec fn held(sets: Map<Coord, usize>, a: Coord, y: int, x: int) -> bool {
    exists|m: Coord|
        #[trigger] sets.contains_key(m) && sets[m] == sets[a] && (m.y == y + 1 || (m.y == y && m.x
            <= x))
}

/// Every set has a member in row `y + 1`, or in row `y` at or before column
/// `x`.
pub open spec fn anchored(sets: Map<Coord, usize>, y: int, x: int) -> bool {
    forall|a: Coord| sets.contains_key(a) ==> #[trigger] held(sets, a, y, x)
}

/// The cells of row `y` up to column `x` are in the set of the first cell of
/// the row.
pub open spec fn level(sets: Map<Coord, usize>, maze: &Maze, y: int, x: int) -> bool {
    forall|a: Coord|
        a.spec_valid_coord(maze.config.width, maze.config.height) && a.y == y && a.x <= x
            ==> #[trigger] sets[a] == sets[Coord { x: 0, y: y as i32 }]
}

/// No set has a number above `last_set`.
pub open spec fn numbered(sets: Map<Coord, usize>, last_set: usize) -> bool {
    forall|a: Coord| #[trigger] sets.contains_key(a) ==> sets[a] <= last_set
}

/// The sets while a row is read from left to right, with the cell `c` the
/// current one: the rows above and the row of `c` up to `c` are in sets,
/// no cell below is, every set has a member in the row of `c`, and in the
/// last row the cells up to `c` are in one set.
#[verifier::opaque]
pub open spec fn rightwards(
    sets: Map<Coord, usize>,
    maze: &Maze,
    c: Coord,
    last_row: i32,
    last_set: usize,
) -> bool {
    &&& filled(sets, maze, c.y as int, c.x as int)
    &&& below(sets, maze, c.y + 1, maze.config.width - 1)
    &&& anchored(sets, c.y - 1, -1)
    &&& numbered(sets, last_set)
    &&& (c.y == last_row ==> level(sets, maze, c.y as int, c.x as int))
}

/// The sets while the row `y` is read from right to left, with the cells
/// behind column `x` dealt with: the rows down to `y` are in sets, the
/// next row is in sets only behind column `x`, and every set has a member
/// in the next row or in row `y` at or before column `x`.
#[verifier::opaque]
pub open spec fn leftwards(
    sets: Map<Coord, usize>,
    maze: &Maze,
    y: int,
    x: int,
    last_row: i32,
    last_set: usize,
) -> bool {
    &&& filled(sets, maze, y, maze.config.width - 1)
    &&& below(sets, maze, y + 1, x)
    &&& anchored(sets, y, x)
    &&& numbered(sets, last_set)
    &&& (y == last_row ==> level(sets, maze, y, maze.config.width - 1))
}

/// At the end of a row, the reading turns from left to right to right to
/// left.
pub proof fn lemma_turn_left(
    sets: Map<Coord, usize>,
    maze: &Maze,
    c: Coord,
    last_row: i32,
    last_set: usize,
)
    requires
        rightwards(sets, maze, c, last_row, last_set),
        c.x == maze.config.width - 1,
    ensures
        leftwards(sets, maze, c.y as int, c.x as int, last_row, last_set),
{
    reveal(rightwards);
    reveal(leftwards);
    assert forall|a: Coord| sets.contains_key(a) implies #[trigger] held(
        sets,
        a,
        c.y as int,
        c.x as int,
    ) by {
        assert(held(sets, a, c.y - 1, -1));
        let m = choose|m: Coord|
            #[trigger] sets.contains_key(m) && sets[m] == sets[a] && (m.y == c.y - 1 + 1 || (m.y
                == c.y - 1 && m.x <= -1));
        assert(sets.contains_key(m));
    }
}

/// From left to right, the current cell and cells of the grid up to it are
/// in sets, and no number above the last one is in use.
pub proof fn lemma_rightwards_facts(
    sets: Map<Coord, usize>,
    maze: &Maze,
    c: Coord,
    last_row: i32,
    last_set: usize,
)
    requires
        rightwards(sets, maze, c, last_row, last_set),
        c.spec_valid_coord(maze.config.width, maze.config.height),
        last_set < usize::MAX,
    ensures
        sets.contains_key(c),
        sets[c] <= last_set,
        !sets.values().contains((last_set + 1) as usize),
{
    reveal(rightwards);
    if sets.values().contains((last_set + 1) as usize) {
        let z = choose|z: Coord| #[trigger] sets.contains_key(z) && sets[z] == last_set + 1;
        assert(sets[z] <= last_set);
    }
}

/// From right to left, the current cell is in a set, the cell below it is
/// in none, and no number above the last one is in use.
pub proof fn lemma_leftwards_facts(
    sets: Map<Coord, usize>,
    maze: &Maze,
    c: Coord,
    last_row: i32,
    last_set: usize,
)
    requires
        leftwards(sets, maze, c.y as int, c.x as int, last_row, last_set),
        c.spec_valid_coord(maze.config.width, maze.config.height),
        last_set < usize::MAX,
        c.y < i32::MAX,
    ensures
        sets.contains_key(c),
        !sets.contains_key(Coord { x: c.x, y: (c.y + 1) as i32 }),
        !sets.values().contains((last_set + 1) as usize),
{
    reveal(leftwards);
    if sets.values().contains((last_set + 1) as usize) {
        let z = choose|z: Coord| #[trigger] sets.contains_key(z) && sets[z] == last_set + 1;
        assert(sets[z] <= last_set);
    }
}

/// From left to right, the reading moves on to a neighbour that has just
/// got a number: that of the current cell, or a new one.
pub proof fn lemma_rightwards_insert(
    sets: Map<Coord, usize>,
    maze: &Maze,
    c: Coord,
    last_row: i32,
    last_set: usize,
    label: usize,
    next_set: usize,
)
    requires
        rightwards(sets, maze, c, last_row, last_set),
        c.spec_valid_coord(maze.config.width, maze.config.height),
        c.spec_neighbour(Direction::East, maze.config.width, maze.config.height) is Some,
        !sets.contains_key(
            c.spec_neighbour(Direction::East, maze.config.width, maze.config.height)->0,
        ),
        last_set <= next_set,
        label <= next_set,
        c.y == last_row ==> label == sets[c],
    ensures
        rightwards(
            sets.insert(
                c.spec_neighbour(Direction::East, maze.config.width, maze.config.height)->0,
                label,
            ),
            maze,
            c.spec_neighbour(Direction::East, maze.config.width, maze.config.height)->0,
            last_row,
            next_set,
        ),
{
    reveal(rightwards);
    let w = maze.config.width;
    let h = maze.config.height;
    let n = c.spec_neighbour(Direction::East, w, h)->0;
    let grown = sets.insert(n, label);
    assert forall|a: Coord| grown.contains_key(a) implies #[trigger] held(grown, a, n.y - 1, -1) by {
        if a == n {
            assert(grown.contains_key(n));
        } else {
            assert(held(sets, a, c.y - 1, -1));
            let m = choose|m: Coord|
                #[trigger] sets.contains_key(m) && sets[m] == sets[a] && (m.y == c.y - 1 + 1 || (m.y
                    == c.y - 1 && m.x <= -1));
            assert(grown.contains_key(m) && grown[m] == grown[a]);
        }
    }
    assert forall|a: Coord|
        a.spec_valid_coord(w, h) && (a.y < n.y || (a.y == n.y && a.x
            <= n.x)) implies #[trigger] grown.contains_key(a) by {
        if a != n {
            assert(sets.contains_key(a));
        }
    }
    assert forall|a: Coord| #[trigger] grown.contains_key(a) implies a.spec_valid_coord(w, h) && (
    a.y < n.y + 1 || (a.y == n.y + 1 && a.x > w - 1)) by {
        if a != n {
            assert(sets.contains_key(a));
        }
    }
    assert forall|a: Coord| #[trigger] grown.contains_key(a) implies grown[a] <= next_set by {
        if a != n {
            assert(sets.contains_key(a));
        }
    }
    if n.y == last_row {
        let first = Coord { x: 0, y: c.y };
        assert(sets.contains_key(c));
        assert(sets[c] == sets[first]);
        assert forall|a: Coord|
            a.spec_valid_coord(w, h) && a.y == n.y && a.x <= n.x implies #[trigger] grown[a]
            == grown[Coord { x: 0, y: n.y }] by {
            if a != n {
                assert(sets.contains_key(a));
                assert(sets[a] == sets[first]);
            }
        }
    }
}

/// From left to right, the reading moves on to a neighbour whose set has
/// just been united with the set of the current cell.
pub proof fn lemma_rightwards_merge(
    sets: Map<Coord, usize>,
    maze: &Maze,
    c: Coord,
    last_row: i32,
    last_set: usize,
)
    requires
        rightwards(sets, maze, c, last_row, last_set),
        c.spec_valid_coord(maze.config.width, maze.config.height),
        c.spec_neighbour(Direction::East, maze.config.width, maze.config.height) is Some,
        sets.contains_key(
            c.spec_neighbour(Direction::East, maze.config.width, maze.config.height)->0,
        ),
    ensures
        rightwards(
            renamed(
                sets,
                sets[c.spec_neighbour(
                    Direction::East,
                    maze.config.width,
                    maze.config.height,
                )->0],
                sets[c],
            ),
            maze,
            c.spec_neighbour(Direction::East, maze.config.width, maze.config.height)->0,
            last_row,
            last_set,
        ),
{
    reveal(rightwards);
    let w = maze.config.width;
    let h = maze.config.height;
    let n = c.spec_neighbour(Direction::East, w, h)->0;
    let grown = renamed(sets, sets[n], sets[c]);
    assert(sets.contains_key(c));
    assert forall|a: Coord| grown.contains_key(a) implies #[trigger] held(grown, a, n.y - 1, -1) by {
        assert(sets.contains_key(a));
        assert(held(sets, a, c.y - 1, -1));
        let m = choose|m: Coord|
            #[trigger] sets.contains_key(m) && sets[m] == sets[a] && (m.y == c.y - 1 + 1 || (m.y
                == c.y - 1 && m.x <= -1));
        assert(grown.contains_key(m) && grown[m] == grown[a]);
    }
    assert forall|a: Coord|
        a.spec_valid_coord(w, h) && (a.y < n.y || (a.y == n.y && a.x
            <= n.x)) implies #[trigger] grown.contains_key(a) by {
        if a != n {
            assert(sets.contains_key(a));
        }
    }
    assert forall|a: Coord| #[trigger] grown.contains_key(a) implies a.spec_valid_coord(w, h) && (
    a.y < n.y + 1 || (a.y == n.y + 1 && a.x > w - 1)) by {
        assert(sets.contains_key(a));
    }
    assert forall|a: Coord| #[trigger] grown.contains_key(a) implies grown[a] <= last_set by {
        assert(sets.contains_key(a));
    }
    if n.y == last_row {
        let first = Coord { x: 0, y: c.y };
        assert(sets.contains_key(first));
        assert(sets[c] == sets[first]);
        assert forall|a: Coord|
            a.spec_valid_coord(w, h) && a.y == n.y && a.x <= n.x implies #[trigger] grown[a]
            == grown[Coord { x: 0, y: n.y }] by {
            assert(sets.contains_key(a));
            if a != n {
                assert(sets[a] == sets[first]);
            }
        }
    }
}

/// From left to right, the reading moves on to a neighbour that is in a set
/// and stays in it.
pub proof fn lemma_rightwards_pass(
    sets: Map<Coord, usize>,
    maze: &Maze,
    c: Coord,
    last_row: i32,
    last_set: usize,
)
    requires
        rightwards(sets, maze, c, last_row, last_set),
        c.spec_valid_coord(maze.config.width, maze.config.height),
        c.spec_neighbour(Direction::East, maze.config.width, maze.config.height) is Some,
        sets.contains_key(
            c.spec_neighbour(Direction::East, maze.config.width, maze.config.height)->0,
        ),
        c.y == last_row ==> sets[c.spec_neighbour(
            Direction::East,
            maze.config.width,
            maze.config.height,
        )->0] == sets[c],
    ensures
        rightwards(
            sets,
            maze,
            c.spec_neighbour(Direction::East, maze.config.width, maze.config.height)->0,
            last_row,
            last_set,
        ),
{
    reveal(rightwards);
    let w = maze.config.width;
    let h = maze.config.height;
    let n = c.spec_neighbour(Direction::East, w, h)->0;
    assert forall|a: Coord|
        a.spec_valid_coord(w, h) && (a.y < n.y || (a.y == n.y && a.x
            <= n.x)) implies #[trigger] sets.contains_key(a) by {
        if a != n {
            assert(a.y < c.y || (a.y == c.y && a.x <= c.x));
        }
    }
    if n.y == last_row {
        let first = Coord { x: 0, y: c.y };
        assert(sets.contains_key(c));
        assert(sets[c] == sets[first]);
        assert forall|a: Coord|
            a.spec_valid_coord(w, h) && a.y == n.y && a.x <= n.x implies #[trigger] sets[a]
            == sets[Coord { x: 0, y: n.y }] by {
            if a != n {
                assert(a.x <= c.x);
            }
        }
    }
}

/// From right to left, the reading moves on by one column: the set of the
/// current cell was carried down into the cell below it, or keeps a member
/// in the next row or before the current cell.
pub proof fn lemma_leftwards_step(
    sets: Map<Coord, usize>,
    maze: &Maze,
    c: Coord,
    last_row: i32,
    last_set: usize,
    carry: bool,
)
    requires
        maze.config.wf(),
        leftwards(sets, maze, c.y as int, c.x as int, last_row, last_set),
        c.spec_valid_coord(maze.config.width, maze.config.height),
        c.y + 1 < maze.config.height,
        c.y != last_row,
        !carry ==> held(sets, c, c.y as int, c.x - 1),
    ensures
        leftwards(
            if carry {
                sets.insert(Coord { x: c.x, y: (c.y + 1) as i32 }, sets[c])
            } else {
                sets
            },
            maze,
            c.y as int,
            c.x - 1,
            last_row,
            last_set,
        ),
{
    reveal(leftwards);
    let w = maze.config.width;
    let h = maze.config.height;
    lemma_config_bounds(maze.config);
    let s0 = Coord { x: c.x, y: (c.y + 1) as i32 };
    let linked = if carry {
        sets.insert(s0, sets[c])
    } else {
        sets
    };
    assert(sets.contains_key(c));
    assert forall|a: Coord| linked.contains_key(a) implies #[trigger] held(
        linked,
        a,
        c.y as int,
        c.x - 1,
    ) by {
        if linked[a] == sets[c] {
            if carry {
                assert(linked.contains_key(s0));
            } else {
                let m = choose|m: Coord|
                    #[trigger] sets.contains_key(m) && sets[m] == sets[c] && (m.y == c.y + 1 || (m.y
                        == c.y && m.x <= c.x - 1));
                assert(linked.contains_key(m) && linked[m] == linked[a]);
            }
        } else {
            assert(sets.contains_key(a));
            assert(held(sets, a, c.y as int, c.x as int));
            let m = choose|m: Coord|
                #[trigger] sets.contains_key(m) && sets[m] == sets[a] && (m.y == c.y + 1 || (m.y
                    == c.y && m.x <= c.x));
            assert(linked.contains_key(m) && linked[m] == linked[a]);
        }
    }
    assert forall|a: Coord| #[trigger] linked.contains_key(a) implies linked[a] <= last_set by {
        if a != s0 {
            assert(sets.contains_key(a));
        }
    }
    assert forall|a: Coord| #[trigger] linked.contains_key(a) implies a.spec_valid_coord(w, h) && (
    a.y < c.y + 1 || (a.y == c.y + 1 && a.x > c.x - 1)) by {
        if a != s0 {
            assert(sets.contains_key(a));
        }
    }
    assert forall|a: Coord|
        a.spec_valid_coord(w, h) && (a.y < c.y || (a.y == c.y && a.x <= w
            - 1)) implies #[trigger] linked.contains_key(a) by {
        assert(sets.contains_key(a));
    }
}

/// At the beginning of a row, the reading turns from right to left to left
/// to right in the next row, whose first cell gets a set of its own if it
/// is in none.
pub proof fn lemma_turn_right(
    sets: Map<Coord, usize>,
    maze: &Maze,
    y: i32,
    last_row: i32,
    last_set: usize,
)
    requires
        maze.config.wf(),
        leftwards(sets, maze, y as int, -1, last_row, last_set),
        0 <= y,
        y + 1 < maze.config.height,
        y + 1 <= i32::MAX,
        last_set < usize::MAX,
    ensures
        ({
            let s0 = Coord { x: 0, y: (y + 1) as i32 };
            if sets.contains_key(s0) {
                rightwards(sets, maze, s0, last_row, last_set)
            } else {
                rightwards(
                    sets.insert(s0, (last_set + 1) as usize),
                    maze,
                    s0,
                    last_row,
                    (last_set + 1) as usize,
                )
            }
        }),
{
    reveal(leftwards);
    reveal(rightwards);
    let w = maze.config.width;
    let h = maze.config.height;
    let s0 = Coord { x: 0, y: (y + 1) as i32 };
    let (grown, next_set) = if sets.contains_key(s0) {
        (sets, last_set)
    } else {
        (sets.insert(s0, (last_set + 1) as usize), (last_set + 1) as usize)
    };
    assert forall|a: Coord| grown.contains_key(a) implies #[trigger] held(grown, a, s0.y - 1, -1) by {
        if sets.contains_key(a) {
            assert(held(sets, a, y as int, -1));
            let m = choose|m: Coord|
                #[trigger] sets.contains_key(m) && sets[m] == sets[a] && (m.y == y + 1 || (m.y == y
                    && m.x <= -1));
            assert(grown.contains_key(m) && grown[m] == grown[a]);
        } else {
            assert(grown.contains_key(s0));
        }
    }
    assert forall|a: Coord| #[trigger] grown.contains_key(a) implies grown[a] <= next_set by {
        if sets.contains_key(a) {
        }
    }
    assert forall|a: Coord|
        a.spec_valid_coord(w, h) && (a.y < s0.y || (a.y == s0.y && a.x
            <= s0.x)) implies #[trigger] grown.contains_key(a) by {
        if a != s0 {
            assert(sets.contains_key(a));
        }
    }
    assert forall|a: Coord| #[trigger] grown.contains_key(a) implies a.spec_valid_coord(w, h) && (
    a.y < s0.y + 1 || (a.y == s0.y + 1 && a.x > w - 1)) by {
        if sets.contains_key(a) {
        }
    }
    if s0.y == last_row {
        assert forall|a: Coord|
            a.spec_valid_coord(w, h) && a.y == s0.y && a.x <= s0.x implies #[trigger] grown[a]
            == grown[Coord { x: 0, y: s0.y }] by {
            assert(a == s0);
        }
    }
}

/// From right to left in the last row, all cells in sets are in one set.
pub proof fn lemma_last_row_one_set(
    sets: Map<Coord, usize>,
    maze: &Maze,
    c: Coord,
    last_row: i32,
    last_set: usize,
)
    requires
        leftwards(sets, maze, c.y as int, c.x as int, last_row, last_set),
        c.y == last_row,
        last_row == maze.config.height - 1,
    ensures
        forall|a: Coord| all_cells(maze.config).contains(a) <==> sets.contains_key(a),
        forall|a: Coord| #[trigger]
            sets.contains_key(a) ==> sets[a] == sets[Coord { x: 0, y: 0 }],
{
    reveal(leftwards);
    let first = Coord { x: 0, y: c.y };
    let root = Coord { x: 0, y: 0 };
    assert forall|a: Coord| all_cells(maze.config).contains(a) <==> sets.contains_key(a) by {
        if all_cells(maze.config).contains(a) {
            assert(sets.contains_key(a));
        }
    }
    assert forall|a: Coord| #[trigger] sets.contains_key(a) implies sets[a] == sets[first] by {
        assert(held(sets, a, c.y as int, c.x as int));
        let m = choose|m: Coord|
            #[trigger] sets.contains_key(m) && sets[m] == sets[a] && (m.y == c.y + 1 || (m.y == c.y
                && m.x <= c.x));
        assert(sets.contains_key(m));
        assert(sets[m] == sets[first]);
    }
    if sets.contains_key(root) {
    }
}

impl EllerState {
    /// What holds between the ticks of the algorithm on a maze that nothing
    /// else changes: the walls that are down make a forest over the cells
    /// in sets, and the sets are as the direction of reading asks.
    #[verifier::opaque]
    pub open spec fn inv(self, maze: &Maze) -> bool {
        let c = self.current;
        &&& forest_over(maze.config, maze.walls@, self.sets)
        &&& self.last_row == maze.config.height - 1
        &&& c.spec_valid_coord(maze.config.width, maze.config.height)
        &&& match self.mode {
            EllerMode::Horizontal => rightwards(
                self.sets,
                maze,
                c,
                self.last_row,
                self.last_set,
            ),
            EllerMode::Vertical => leftwards(
                self.sets,
                maze,
                c.y as int,
                c.x as int,
                self.last_row,
                self.last_set,
            ),
        }
    }

    /// A bound on the number of ticks the algorithm has left.
    pub open spec fn fuel(self, maze: &Maze) -> int {
        let w = maze.config.width as int;
        let h = maze.config.height as int;
        (h - self.current.y) * (2 * w) - match self.mode {
            EllerMode::Horizontal => self.current.x as int,
            EllerMode::Vertical => 2 * w - 1 - self.current.x,
        }
    }

    /// The algorithm is done.
    pub open spec fn done(self) -> bool {
        self.mode == EllerMode::Vertical && self.current.y == self.last_row
    }

    /// The algorithm about to begin on a maze with every wall standing has
    /// one cell in a set.
    pub proof fn lemma_inv_at_start(self, maze: &Maze)
        requires
            maze.wf(),
            forall|w: Wall| #[trigger] maze.config.is_wall(w) ==> maze.walls@.contains(w),
            self == (EllerState {
                current: Coord { x: 0, y: 0 },
                last_row: (maze.config.height - 1) as i32,
                mode: EllerMode::Horizontal,
                sets: Map::<Coord, usize>::empty().insert(Coord { x: 0, y: 0 }, 0),
                last_set: 0,
            }),
        ensures
            self.inv(maze),
    {
        reveal(EllerState::inv);
        reveal(rightwards);
        let c = Coord { x: 0, y: 0 };
        lemma_config_bounds(maze.config);
        lemma_forest_seed(maze.config, maze.walls@, c, 0);
        assert forall|a: Coord| self.sets.contains_key(a) implies #[trigger] held(
            self.sets,
            a,
            -1,
            -1,
        ) by {
            assert(self.sets.contains_key(c));
        }
    }

    /// What holds between the ticks depends on the grid and the walls
    /// alone.
    pub proof fn lemma_inv_frame(self, maze: &Maze, other: &Maze)
        requires
            self.inv(maze),
            other.same_grid(maze),
            other.walls@ == maze.walls@,
        ensures
            self.inv(other),
            self.fuel(other) == self.fuel(maze),
    {
        reveal(EllerState::inv);
        reveal(rightwards);
        reveal(leftwards);
    }

    /// The fuel does not run below zero.
    pub proof fn lemma_fuel_bound(self, maze: &Maze)
        requires
            maze.wf(),
            self.inv(maze),
        ensures
            self.fuel(maze) >= 0,
    {
        reveal(EllerState::inv);
        let w = maze.config.width as int;
        let h = maze.config.height as int;
        let left = h - self.current.y;
        assert(left * (2 * w) >= 2 * w) by (nonlinear_arith)
            requires
                left >= 1,
                w >= 1,
        ;
    }

    /// A tick from left to right keeps what holds between the ticks, does
    /// not fail, and uses up fuel.
    pub proof fn lemma_tick_horizontal(self, maze: &Maze, coin: bool, after: EllerState, result: &Maze)
        requires
            maze.wf(),
            result.same_grid(maze),
            self.inv(maze),
            self.mode == EllerMode::Horizontal,
            self.last_set < usize::MAX,
            after == Eller::outcome(self, maze, coin).state,
            result.walls@ == Eller::outcome(self, maze, coin).walls,
        ensures
            Eller::outcome(self, maze, coin).result is Ok,
            after.inv(result),
            after.fuel(result) < self.fuel(maze),
    {
        reveal(EllerState::inv);
        let c = self.current;
        let config = maze.config;
        let w = config.width;
        let h = config.height;
        let sets = self.sets;
        lemma_config_bounds(config);
        lemma_rightwards_facts(sets, maze, c, self.last_row, self.last_set);
        match c.spec_neighbour(Direction::East, w, h) {
            None => {
                lemma_turn_left(sets, maze, c, self.last_row, self.last_set);
            },
            Some(n) => {
                if !same_label(sets, c, n) && (c.y == self.last_row || coin) {
                    if sets.contains_key(n) {
                        lemma_forest_merge(config, maze.walls@, sets, c, Direction::East);
                        lemma_rightwards_merge(sets, maze, c, self.last_row, self.last_set);
                    } else {
                        lemma_forest_attach(config, maze.walls@, sets, c, Direction::East);
                        lemma_rightwards_insert(
                            sets,
                            maze,
                            c,
                            self.last_row,
                            self.last_set,
                            sets[c],
                            self.last_set,
                        );
                    }
                } else if !sets.contains_key(n) {
                    let label = (self.last_set + 1) as usize;
                    lemma_forest_new(config, maze.walls@, sets, n, label);
                    lemma_rightwards_insert(sets, maze, c, self.last_row, self.last_set, label, label);
                } else {
                    lemma_rightwards_pass(sets, maze, c, self.last_row, self.last_set);
                }
            },
        }
        let next = after.current;
        assert(rightwards(after.sets, result, next, after.last_row, after.last_set)
            || after.mode == EllerMode::Vertical) by {
            reveal(rightwards);
        }
        assert(after.mode == EllerMode::Vertical ==> leftwards(
            after.sets,
            result,
            next.y as int,
            next.x as int,
            after.last_row,
            after.last_set,
        )) by {
            reveal(leftwards);
        }
    }

    /// A tick from right to left keeps what holds between the ticks, does
    /// not fail, and uses up fuel.
    pub proof fn lemma_tick_vertical(self, maze: &Maze, coin: bool, after: EllerState, result: &Maze)
        requires
            maze.wf(),
            result.same_grid(maze),
            self.inv(maze),
            self.mode == EllerMode::Vertical,
            self.current.y != self.last_row,
            self.last_set < usize::MAX,
            after == Eller::outcome(self, maze, coin).state,
            result.walls@ == Eller::outcome(self, maze, coin).walls,
        ensures
            Eller::outcome(self, maze, coin).result is Ok,
            after.inv(result),
            after.fuel(result) < self.fuel(maze),
    {
        reveal(EllerState::inv);
        let c = self.current;
        let config = maze.config;
        let w = config.width;
        let h = config.height;
        let sets = self.sets;
        lemma_config_bounds(config);
        lemma_leftwards_facts(sets, maze, c, self.last_row, self.last_set);
        let rows = h - c.y;
        assert((rows - 1) * (2 * w) == rows * (2 * w) - 2 * w) by (nonlinear_arith);
        let south = c.spec_neighbour(Direction::South, w, h);
        let west = c.spec_neighbour(Direction::West, w, h);
        let s0 = Coord { x: c.x, y: (c.y + 1) as i32 };
        assert(south == Some(s0));
        let carry = Eller::forced(self, maze) || coin;
        let linked = if carry {
            sets.insert(s0, sets[c])
        } else {
            sets
        };
        if carry {
            lemma_forest_attach(config, maze.walls@, sets, c, Direction::South);
        } else {
            if Eller::carries(self, maze, sets[c]) {
                let m = choose|m: Coord|
                    {
                        &&& m.spec_valid_coord(w, h)
                        &&& m.y == c.y
                        &&& #[trigger] sets.contains_key(m)
                        &&& sets[m] == sets[c]
                        &&& !maze.walls@.contains(m.spec_south_wall(config))
                    };
                let under = m.spec_neighbour(Direction::South, w, h)->0;
                lemma_forest_step(config, maze.walls@, sets, m, Direction::South);
                assert(sets.contains_key(under) && sets[under] == sets[c] && under.y == c.y + 1);
            } else {
                let wc = west->0;
                assert(west is Some && same_label(sets, wc, c));
                assert(sets.contains_key(wc) && sets[wc] == sets[c] && wc.y == c.y && wc.x <= c.x
                    - 1);
            }
            assert(held(sets, c, c.y as int, c.x - 1));
        }
        lemma_leftwards_step(sets, maze, c, self.last_row, self.last_set, carry);
        assert(forest_over(config, result.walls@, linked));
        match west {
            Some(n) => {
                assert(after.sets == linked);
                assert(n.x == c.x - 1 && n.y == c.y);
            },
            None => {
                assert(c.x == 0);
                lemma_turn_right(linked, maze, c.y, self.last_row, self.last_set);
                if !linked.contains_key(s0) {
                    let label = (self.last_set + 1) as usize;
                    assert(!linked.values().contains(label)) by {
                        reveal(leftwards);
                        if linked.values().contains(label) {
                            let z = choose|z: Coord|
                                #[trigger] linked.contains_key(z) && linked[z] == label;
                            assert(linked[z] <= self.last_set);
                        }
                    }
                    lemma_forest_new(config, result.walls@, linked, s0, label);
                }
                assert(rightwards(after.sets, result, s0, after.last_row, after.last_set)) by {
                    reveal(rightwards);
                }
            },
        }
        assert(after.mode == EllerMode::Vertical ==> leftwards(
            after.sets,
            result,
            after.current.y as int,
            after.current.x as int,
            after.last_row,
            after.last_set,
        )) by {
            reveal(leftwards);
        }
    }

    /// When the algorithm is done, the maze is perfect.
    pub proof fn lemma_done_perfect(self, maze: &Maze)
        requires
            maze.wf(),
            self.inv(maze),
            self.done(),
        ensures
            perfect(maze.config, maze.walls@),
    {
        reveal(EllerState::inv);
        let sets = self.sets;
        lemma_last_row_one_set(sets, maze, self.current, self.last_row, self.last_set);
        assert(sets.dom() =~= all_cells(maze.config));
        lemma_full_forest_perfect(maze.config, maze.walls@, sets);
    }
}

impl Generator for Eller {
    closed spec fn wf(&self) -> bool {
        &&& self.sets.wf()
        &&& self.last_set < self.sets.size()
    }

    open spec fn done(&self) -> bool {
        self@.done()
    }

    fn is_done(&self) -> (r: bool) {
        self.mode == EllerMode::Vertical && self.current.y == self.last_row
    }

    open spec fn inv(&self, maze: &Maze) -> bool {
        self@.inv(maze)
    }

    open spec fn fuel(&self, maze: &Maze) -> int {
        self@.fuel(maze)
    }

    proof fn lemma_fuel(&self, maze: &Maze) {
        self@.lemma_fuel_bound(maze);
    }

    proof fn lemma_done(&self, maze: &Maze) {
        self@.lemma_done_perfect(maze);
    }

    /// One tick: a coin is tossed where the tick depends on one.
    fn tick(&mut self, maze: &mut Maze, random: &mut StdRng) -> (r: Result<(), Error>)
        ensures
            !old(self).done() ==> Eller::agrees(
                Eller::outcome(old(self)@, old(maze), true),
                final(self),
                final(maze),
                r,
            ) || Eller::agrees(
                Eller::outcome(old(self)@, old(maze), false),
                final(self),
                final(maze),
                r,
            ),
    {
        let coin = if !self.is_done() && self.wants_coin(maze) {
            gen_bool(random)
        } else {
            false
        };
        proof {
            self.sets.lemma_size_bound();
        }
        let r = self.advance(maze, coin);
        proof {
            if old(self)@.inv(old(maze)) {
                if old(self).done() {
                    old(self)@.lemma_inv_frame(old(maze), maze);
                } else if old(self)@.mode == EllerMode::Horizontal {
                    old(self)@.lemma_tick_horizontal(old(maze), coin, self@, maze);
                } else {
                    old(self)@.lemma_tick_vertical(old(maze), coin, self@, maze);
                }
            }
        }
        r
    }
}

} // verus!
