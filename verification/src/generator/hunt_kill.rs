use rand::StdRng;
use vstd::prelude::*;
use crate::error::Error;
use crate::generator::eller::row;
use crate::generator::{
    find_first, first_match, lemma_first_match, lemma_neighbour_entries, lemma_same_items,
    Generator,
};
use crate::maze::{lemma_config_bounds, Coord, Direction, Maze, Wall};
use crate::passages::{
    all_cells, closed, index_of, lemma_cell_count, lemma_closed_is_all, lemma_full_tree_perfect,
    lemma_index_bound, lemma_shared_wall, lemma_tree_grows, lemma_tree_seed, perfect, tree_over,
};
use crate::random::shuffle;

verus! {

/// The two ways the algorithm moves.
#[derive(Debug, Clone, Copy, PartialEq, Eq, Structural)]
pub enum HuntKillMode {
    /// The grid is read row by row for a cell to go on from.
    Hunt,
    /// A random walk through cells not explored yet.
    Kill,
}

/// Hunt-and-Kill: a random walk that, where it is stuck, looks for a cell
/// not explored yet next to an explored one and goes on from there.
pub struct HuntKill {
    current: Option<Coord>,
    last_completed_row: i32,
    mode: HuntKillMode,
}

/// What the algorithm knows between two ticks.
pub struct HuntKillState {
    /// The cell the next tick works on; none once the algorithm is done.
    pub current: Option<Coord>,
    /// The first row that is not known to be explored in full.
    pub last_completed_row: i32,
    pub mode: HuntKillMode,
}

/// What a tick comes to.
pub struct HuntKillOutcome {
    pub state: HuntKillState,
    pub walls: Set<Wall>,
    pub explored: Set<Coord>,
    pub bright: Set<Coord>,
    pub medium: Set<Coord>,
    pub dark: Set<Coord>,
    pub result: Result<(), Error>,
}

impl HuntKillOutcome {
    /// The outcome on a maze that had bright marks before: a step leaves
    /// them where they are.
    pub open spec fn beside(self, bright: Set<Coord>) -> HuntKillOutcome {
        HuntKillOutcome { bright: bright.union(self.bright), ..self }
    }
}

impl View for HuntKill {
    type V = HuntKillState;

    closed spec fn view(&self) -> HuntKillState {
        HuntKillState {
            current: self.current,
            last_completed_row: self.last_completed_row,
            mode: self.mode,
        }
    }
}

impl HuntKill {
    /// What a step of the random walk from the cell `c` comes to, with the
    /// neighbours of `c` in the order given: the walk goes on to the first
    /// of them that is not explored, and the hunt begins if there is none.
    pub open spec fn kill_outcome(
        s: HuntKillState,
        maze: &Maze,
        c: Coord,
        shuffled: Seq<(Coord, Direction)>,
    ) -> HuntKillOutcome {
        let seen = maze.explored@.insert(c);
        let base = HuntKillOutcome {
            state: s,
            walls: maze.walls@,
            explored: seen,
            bright: Set::<Coord>::empty().insert(c),
            medium: maze.highlight_medium@.insert(c),
            dark: maze.highlight_dark@,
            result: Ok(()),
        };
        match first_match(shuffled, seen, false) {
            Some((n, _)) => match maze.direction_to(c, n) {
                Some(d) => HuntKillOutcome {
                    state: HuntKillState { current: Some(n), ..s },
                    walls: maze.walls@.remove(c.spec_wall(d, maze.config)),
                    explored: seen.insert(n),
                    ..base
                },
                None => HuntKillOutcome { result: Err(Error::NotNeighbours(c, n)), ..base },
            },
            None => HuntKillOutcome {
                state: HuntKillState {
                    current: Some(Coord { x: 0, y: s.last_completed_row }),
                    mode: HuntKillMode::Hunt,
                    ..s
                },
                ..base
            },
        }
    }

    /// What a step of the hunt at the cell `c` comes to, with the neighbours
    /// of `c` in the order given: a cell not explored yet is linked to the
    /// first of its neighbours that is explored, and the walk goes on from
    /// it; from any other cell the hunt moves on, row by row, and ends
    /// behind the last cell.
    pub open spec fn hunt_outcome(
        s: HuntKillState,
        maze: &Maze,
        c: Coord,
        shuffled: Seq<(Coord, Direction)>,
    ) -> HuntKillOutcome {
        let w = maze.config.width;
        let h = maze.config.height;
        let base = HuntKillOutcome {
            state: s,
            walls: maze.walls@,
            explored: maze.explored@,
            bright: Set::<Coord>::empty().insert(c),
            medium: row(c.y, w),
            dark: maze.highlight_dark@,
            result: Ok(()),
        };
        let found = if maze.explored@.contains(c) {
            None
        } else {
            first_match(shuffled, maze.explored@, true)
        };
        match found {
            Some((n, _)) => {
                let met = HuntKillOutcome {
                    bright: Set::<Coord>::empty().insert(c).insert(n),
                    medium: Set::<Coord>::empty(),
                    ..base
                };
                match maze.direction_to(c, n) {
                    Some(d) => HuntKillOutcome {
                        state: HuntKillState { mode: HuntKillMode::Kill, ..s },
                        walls: maze.walls@.remove(c.spec_wall(d, maze.config)),
                        explored: maze.explored@.insert(c),
                        ..met
                    },
                    None => HuntKillOutcome { result: Err(Error::NotNeighbours(c, n)), ..met },
                }
            },
            None => match c.spec_neighbour(Direction::East, w, h) {
                Some(e) => HuntKillOutcome { state: HuntKillState { current: Some(e), ..s }, ..base },
                None => if c.y < h - 1 {
                    HuntKillOutcome {
                        state: HuntKillState {
                            current: Some(Coord { x: 0, y: (c.y + 1) as i32 }),
                            last_completed_row: if c.y == s.last_completed_row && row(
                                c.y,
                                w,
                            ).subset_of(maze.explored@) {
                                (c.y + 1) as i32
                            } else {
                                s.last_completed_row
                            },
                            ..s
                        },
                        ..base
                    }
                } else {
                    HuntKillOutcome { state: HuntKillState { current: None, ..s }, ..base }
                },
            },
        }
    }

    /// What a step of an algorithm without a current cell comes to:
    /// nothing changes but the medium marks, which are as given.
    pub open spec fn idle(s: HuntKillState, maze: &Maze, medium: Set<Coord>) -> HuntKillOutcome {
        HuntKillOutcome {
            state: s,
            walls: maze.walls@,
            explored: maze.explored@,
            bright: Set::<Coord>::empty(),
            medium,
            dark: maze.highlight_dark@,
            result: Ok(()),
        }
    }

    /// What a tick of an algorithm that is not done comes to, with the
    /// neighbours of the current cell in the order given.
    pub open spec fn outcome(s: HuntKillState, maze: &Maze, shuffled: Seq<(Coord, Direction)>)
        -> HuntKillOutcome {
        match s.mode {
            HuntKillMode::Kill => HuntKill::kill_outcome(s, maze, s.current->0, shuffled),
            HuntKillMode::Hunt => HuntKill::hunt_outcome(s, maze, s.current->0, shuffled),
        }
    }

    /// The algorithm and the maze are as an outcome says.
    pub open spec fn agrees(
        out: HuntKillOutcome,
        after: &HuntKill,
        result: &Maze,
        r: Result<(), Error>,
    ) -> bool {
        &&& after@ == out.state
        &&& result.walls@ == out.walls
        &&& result.explored@ == out.explored
        &&& result.highlight_bright@ == out.bright
        &&& result.highlight_medium@ == out.medium
        &&& result.highlight_dark@ == out.dark
        &&& r == out.result
    }

    /// A tick is a function of the algorithm, the maze and the order of the
    /// neighbours: what it comes to once, it comes to again.
    pub proof fn lemma_advance_repeats(
        before: HuntKillState,
        maze: &Maze,
        shuffled: Seq<(Coord, Direction)>,
        first: (&HuntKill, &Maze, Result<(), Error>),
        second: (&HuntKill, &Maze, Result<(), Error>),
    )
        requires
            HuntKill::agrees(HuntKill::outcome(before, maze, shuffled), first.0, first.1, first.2),
            HuntKill::agrees(
                HuntKill::outcome(before, maze, shuffled),
                second.0,
                second.1,
                second.2,
            ),
        ensures
            first.0@ == second.0@,
            first.1.walls@ == second.1.walls@,
            first.1.same_marks(second.1),
            first.2 == second.2,
    {
        if first.2 is Ok && second.2 is Ok {
            assert(first.2->Ok_0 == second.2->Ok_0);
        }
    }

    /// A walk about to leave the first cell of the first row.
    pub fn new(maze: &Maze) -> (g: HuntKill)
        ensures
            g@ == (HuntKillState {
                current: Some(Coord { x: 0, y: 0 }),
                last_completed_row: 0,
                mode: HuntKillMode::Kill,
            }),
            maze.wf() && maze.untouched() ==> g.inv(maze),
    {
        let g = HuntKill {
            current: Some(Coord { x: 0, y: 0 }),
            last_completed_row: 0,
            mode: HuntKillMode::Kill,
        };
        proof {
            if maze.wf() && maze.untouched() {
                g@.lemma_inv_at_start(maze);
            }
        }
        g
    }

    /// The first cell of a list of neighbours that is not explored yet.
    pub fn available_neighbour(&self, maze: &Maze, shuffled: &Vec<(Coord, Direction)>) -> (r:
        Option<(Coord, Direction)>)
        ensures
            r == if self@.current is Some {
                first_match(shuffled@, maze.explored@, false)
            } else {
                None
            },
    {
        if self.current.is_none() {
            return None;
        }
        find_first(shuffled, &maze.explored, false)
    }

    /// The cells of the row of the current cell, from left to right.
    pub fn current_row(&self, maze: &Maze) -> (r: Vec<Coord>)
        requires
            maze.config.wf(),
        ensures
            match self@.current {
                Some(c) => r@ == Seq::new(
                    maze.config.width as nat,
                    |x: int| Coord { x: x as i32, y: c.y },
                ),
                None => r@ == Seq::<Coord>::empty(),
            },
    {
        let mut cells: Vec<Coord> = Vec::new();
        let current = match self.current {
            Some(current) => current,
            None => {
                return cells;
            },
        };
        proof {
            lemma_config_bounds(maze.config);
        }
        let width = maze.maze_width();
        let mut x: u32 = 0;
        while x < width
            invariant
                x <= width <= i32::MAX,
                cells@ == Seq::new(x as nat, |x: int| Coord { x: x as i32, y: current.y }),
            decreases width - x,
        {
            cells.push(Coord { x: x as i32, y: current.y });
            x += 1;
            assert(cells@ =~= Seq::new(x as nat, |x: int| Coord { x: x as i32, y: current.y }));
        }
        cells
    }

    /// For a current cell that is not explored yet, the first cell of a list
    /// of neighbours that is explored.
    pub fn visited_neighbour(&self, maze: &Maze, shuffled: &Vec<(Coord, Direction)>) -> (r: Option<
        (Coord, Direction),
    >)
        ensures
            r == match self@.current {
                Some(c) => if maze.explored@.contains(c) {
                    None
                } else {
                    first_match(shuffled@, maze.explored@, true)
                },
                None => None,
            },
    {
        let current = match self.current {
            Some(current) => current,
            None => {
                return None;
            },
        };
        if maze.explored.contains(&current) {
            return None;
        }
        find_first(shuffled, &maze.explored, true)
    }

    /// One step of the random walk, with the neighbours of the current cell
    /// in the order given. Bright marks set before stay, and without a
    /// current cell nothing happens.
    pub fn tick_kill(&mut self, maze: &mut Maze, shuffled: &Vec<(Coord, Direction)>) -> (r: Result<
        (),
        Error,
    >)
        requires
            old(maze).wf(),
        ensures
            final(maze).same_grid(old(maze)),
            HuntKill::agrees(
                (match old(self)@.current {
                    Some(c) => HuntKill::kill_outcome(old(self)@, old(maze), c, shuffled@),
                    None => HuntKill::idle(old(self)@, old(maze), old(maze).highlight_medium@),
                }).beside(old(maze).highlight_bright@),
                final(self),
                final(maze),
                r,
            ),
            forall|w: Wall|
                w.border && old(maze).walls@.contains(w) ==> #[trigger] final(maze).walls@.contains(
                    w,
                ),
    {
        let current = match self.current {
            Some(current) => current,
            None => {
                assert(maze.highlight_bright@ =~= old(maze).highlight_bright@.union(
                    Set::<Coord>::empty(),
                ));
                return Ok(());
            },
        };

        maze.highlight_bright.insert(current);
        maze.highlight_medium.insert(current);
        maze.explored.insert(current);
        assert(maze.highlight_bright@ =~= old(maze).highlight_bright@.union(
            Set::<Coord>::empty().insert(current),
        ));

        match self.available_neighbour(maze, shuffled) {
            Some((neighbour, _)) => {
                match maze.link(&current, &neighbour) {
                    Ok(()) => {},
                    Err(e) => {
                        return Err(e);
                    },
                }
                maze.explored.insert(neighbour);
                self.current = Some(neighbour);
            },
            None => {
                self.mode = HuntKillMode::Hunt;
                self.current = Some(Coord { x: 0, y: self.last_completed_row });
            },
        }
        Ok(())
    }

    /// One step of the hunt, with the neighbours of the current cell in the
    /// order given. Bright marks set before stay, and without a current
    /// cell only the medium marks are cleared.
    pub fn tick_hunt(&mut self, maze: &mut Maze, shuffled: &Vec<(Coord, Direction)>) -> (r: Result<
        (),
        Error,
    >)
        requires
            old(maze).wf(),
        ensures
            final(maze).same_grid(old(maze)),
            HuntKill::agrees(
                (match old(self)@.current {
                    Some(c) => HuntKill::hunt_outcome(old(self)@, old(maze), c, shuffled@),
                    None => HuntKill::idle(old(self)@, old(maze), Set::<Coord>::empty()),
                }).beside(old(maze).highlight_bright@),
                final(self),
                final(maze),
                r,
            ),
            forall|w: Wall|
                w.border && old(maze).walls@.contains(w) ==> #[trigger] final(maze).walls@.contains(
                    w,
                ),
    {
        maze.highlight_medium.clear();

        let current = match self.current {
            Some(current) => current,
            None => {
                assert(maze.highlight_bright@ =~= old(maze).highlight_bright@.union(
                    Set::<Coord>::empty(),
                ));
                return Ok(());
            },
        };
        proof {
            lemma_config_bounds(maze.config);
        }
        let cells = self.current_row(maze);
        let mut all_explored = true;
        let mut i: usize = 0;
        while i < cells.len()
            invariant
                i <= cells.len(),
                cells@ == Seq::new(
                    maze.config.width as nat,
                    |x: int| Coord { x: x as i32, y: current.y },
                ),
                maze.config.width <= i32::MAX,
                maze.wf(),
                maze.same_grid(old(maze)),
                maze.walls@ == old(maze).walls@,
                maze.highlight_bright@ == old(maze).highlight_bright@,
                maze.highlight_dark@ == old(maze).highlight_dark@,
                maze.explored@ == old(maze).explored@,
                forall|c: Coord| #[trigger]
                    maze.highlight_medium@.contains(c) <==> 0 <= c.x < i && c.y == current.y,
                all_explored <==> forall|c: Coord|
                    0 <= c.x < i && c.y == current.y ==> #[trigger] maze.explored@.contains(c),
            decreases cells.len() - i,
        {
            let c = cells[i];
            maze.highlight_medium.insert(c);
            if !maze.explored.contains(&c) {
                all_explored = false;
            }
            i += 1;
        }
        assert(maze.highlight_medium@ =~= row(current.y, maze.config.width));
        assert(all_explored <==> row(current.y, maze.config.width).subset_of(maze.explored@));

        maze.highlight_bright.insert(current);
        assert(maze.highlight_bright@ =~= old(maze).highlight_bright@.union(
            Set::<Coord>::empty().insert(current),
        ));

        match self.visited_neighbour(maze, shuffled) {
            Some((neighbour, _)) => {
                maze.highlight_medium.clear();
                maze.highlight_bright.insert(neighbour);
                assert(maze.highlight_bright@ =~= old(maze).highlight_bright@.union(
                    Set::<Coord>::empty().insert(current).insert(neighbour),
                ));
                match maze.link(&current, &neighbour) {
                    Ok(()) => {},
                    Err(e) => {
                        return Err(e);
                    },
                }
                maze.explored.insert(current);
                self.mode = HuntKillMode::Kill;
            },
            None => {
                if let Some(neighbour) = maze.neighbour(&current, &Direction::East) {
                    self.current = Some(neighbour);
                } else if (current.y as i64) < maze.maze_height() as i64 - 1 {
                    if current.y == self.last_completed_row && all_explored {
                        self.last_completed_row = current.y + 1;
                    }
                    self.current = Some(Coord { x: 0, y: current.y + 1 });
                } else {
                    self.current = None;
                }
            },
        }
        Ok(())
    }

    /// One tick with the neighbours of the current cell in the order given.
    pub fn advance(&mut self, maze: &mut Maze, shuffled: &Vec<(Coord, Direction)>) -> (r: Result<
        (),
        Error,
    >)
        requires
            old(maze).wf(),
        ensures
            final(maze).same_grid(old(maze)),
            final(maze).highlight_dark@ == old(maze).highlight_dark@,
            if old(self).done() {
                &&& r is Ok
                &&& *final(self) == *old(self)
                &&& final(maze).walls@ == old(maze).walls@
                &&& final(maze).explored@ == old(maze).explored@
                &&& final(maze).highlight_bright@ == Set::<Coord>::empty()
                &&& final(maze).highlight_medium@ == old(maze).highlight_medium@
            } else {
                HuntKill::agrees(
                    HuntKill::outcome(old(self)@, old(maze), shuffled@),
                    final(self),
                    final(maze),
                    r,
                )
            },
            forall|w: Wall|
                w.border && old(maze).walls@.contains(w) ==> #[trigger] final(maze).walls@.contains(
                    w,
                ),
    {
        maze.highlight_bright.clear();
        if self.is_done() {
            return Ok(());
        }
        let r = match self.mode {
            HuntKillMode::Hunt => self.tick_hunt(maze, shuffled),
            HuntKillMode::Kill => self.tick_kill(maze, shuffled),
        };
        proof {
            let out = HuntKill::outcome(old(self)@, old(maze), shuffled@);
            assert(Set::<Coord>::empty().union(out.bright) =~= out.bright);
        }
        r
    }
}

impl HuntKillState {
    /// The cells the algorithm has reached: the explored ones and, during
    /// the random walk, the current one.
    pub open spec fn region(self, maze: &Maze) -> Set<Coord> {
        match (self.mode, self.current) {
            (HuntKillMode::Kill, Some(c)) => maze.explored@.insert(c),
            _ => maze.explored@,
        }
    }

    /// The hunt has nothing to find at the cell `z`: it is reached already,
    /// or none of its neighbours is.
    pub open spec fn cold(maze: &Maze, region: Set<Coord>, z: Coord) -> bool {
        region.contains(z) || forall|d: Direction| #[trigger]
            z.spec_neighbour(d, maze.config.width, maze.config.height) is Some
                ==> !region.contains(z.spec_neighbour(d, maze.config.width, maze.config.height)->0)
    }

    /// What holds between the ticks of the algorithm on a maze that nothing
    /// else changes: the walls that are down make a tree over the cells
    /// reached, rooted at the first cell of the grid; the rows above the
    /// first row not completed are reached in full; and during the hunt
    /// there is nothing to find at the cells between that row and the
    /// current cell.
    #[verifier::opaque]
    pub open spec fn inv(self, maze: &Maze) -> bool {
        let region = self.region(maze);
        let w = maze.config.width;
        let h = maze.config.height;
        &&& tree_over(maze.config, maze.walls@, region, Coord { x: 0, y: 0 })
        &&& 0 <= self.last_completed_row < h
        &&& forall|c: Coord|
            c.spec_valid_coord(w, h) && c.y < self.last_completed_row ==> #[trigger] region.contains(
                c,
            )
        &&& match self.mode {
            HuntKillMode::Kill => self.current is Some,
            HuntKillMode::Hunt => match self.current {
                Some(s) => {
                    &&& s.spec_valid_coord(w, h)
                    &&& s.y >= self.last_completed_row
                    &&& forall|z: Coord|
                        z.spec_valid_coord(w, h) && z.y >= self.last_completed_row && (z.y < s.y
                            || (z.y == s.y && z.x < s.x)) ==> #[trigger] HuntKillState::cold(
                            maze,
                            region,
                            z,
                        )
                },
                None => forall|z: Coord|
                    z.spec_valid_coord(w, h) && z.y >= self.last_completed_row
                        ==> #[trigger] HuntKillState::cold(maze, region, z),
            },
        }
    }

    /// A bound on the number of ticks the algorithm has left.
    pub open spec fn fuel(self, maze: &Maze) -> int {
        let cells = maze.config.width * maze.config.height;
        (cells - self.region(maze).len()) * (cells + 2) + match self.mode {
            HuntKillMode::Kill => cells + 1,
            HuntKillMode::Hunt => match self.current {
                Some(s) => cells - index_of(s, maze.config),
                None => 0,
            },
        }
    }

    /// The algorithm about to begin on a maze with every wall standing and
    /// nothing explored has reached a tree of one cell.
    pub proof fn lemma_inv_at_start(self, maze: &Maze)
        requires
            maze.wf(),
            forall|w: Wall| maze.config.is_wall(w) ==> maze.walls@.contains(w),
            maze.explored@ == Set::<Coord>::empty(),
            self == (HuntKillState {
                current: Some(Coord { x: 0, y: 0 }),
                last_completed_row: 0,
                mode: HuntKillMode::Kill,
            }),
        ensures
            self.inv(maze),
    {
        reveal(HuntKillState::inv);
        lemma_tree_seed(maze.config, maze.walls@, Coord { x: 0, y: 0 });
    }

    /// What holds between the ticks depends on the grid, the walls and the
    /// explored cells alone.
    pub proof fn lemma_inv_frame(self, maze: &Maze, other: &Maze)
        requires
            self.inv(maze),
            other.same_grid(maze),
            other.walls@ == maze.walls@,
            other.explored@ == maze.explored@,
        ensures
            self.inv(other),
            self.fuel(other) == self.fuel(maze),
    {
        reveal(HuntKillState::inv);
        assert forall|z: Coord| HuntKillState::cold(maze, self.region(maze), z)
            == HuntKillState::cold(other, self.region(other), z) by {}
    }

    /// The fuel does not run below zero.
    pub proof fn lemma_fuel_bound(self, maze: &Maze)
        requires
            maze.wf(),
            self.inv(maze),
        ensures
            self.fuel(maze) >= 0,
    {
        reveal(HuntKillState::inv);
        lemma_cell_count(maze.config);
        vstd::set_lib::lemma_len_subset(self.region(maze), all_cells(maze.config));
        let cells = maze.config.width * maze.config.height;
        let left = cells - self.region(maze).len();
        assert(left * (cells + 2) >= 0) by (nonlinear_arith)
            requires
                left >= 0,
                cells >= 0,
        ;
        if let Some(s) = self.current {
            if self.mode == HuntKillMode::Hunt {
                lemma_index_bound(s, maze.config);
            }
        }
    }

    /// A tick keeps what holds between the ticks, does not fail, and uses
    /// up fuel.
    pub proof fn lemma_tick(
        self,
        maze: &Maze,
        order: Seq<(Coord, Direction)>,
        after: HuntKillState,
        result: &Maze,
    )
        requires
            maze.wf(),
            result.same_grid(maze),
            self.inv(maze),
            self.current is Some,
            order.to_multiset() == (self.current->0).spec_neighbours(
                maze.config.width,
                maze.config.height,
            ).to_multiset(),
            ({
                let out = HuntKill::outcome(self, maze, order);
                &&& after == out.state
                &&& result.walls@ == out.walls
                &&& result.explored@ == out.explored
            }),
        ensures
            HuntKill::outcome(self, maze, order).result is Ok,
            after.inv(result),
            after.fuel(result) < self.fuel(maze),
    {
        reveal(HuntKillState::inv);
        let c = self.current->0;
        let w = maze.config.width;
        let h = maze.config.height;
        let config = maze.config;
        let cells = w * h;
        let region = self.region(maze);
        let grown = after.region(result);
        let root = Coord { x: 0, y: 0 };
        let listed = c.spec_neighbours(w, h);
        lemma_same_items(listed, order);
        lemma_neighbour_entries(c, w, h);
        lemma_cell_count(config);
        vstd::set_lib::lemma_len_subset(region, all_cells(config));
        let left = cells - region.len();
        assert((left - 1) * (cells + 2) == left * (cells + 2) - (cells + 2)) by (nonlinear_arith);
        lemma_config_bounds(config);
        assert(region.subset_of(grown)) by {
            assert forall|z: Coord| region.contains(z) implies grown.contains(z) by {
                if self.mode == HuntKillMode::Kill && z == c {
                    assert(result.explored@.contains(c));
                } else {
                    assert(maze.explored@.contains(z));
                    assert(result.explored@.contains(z));
                }
            }
        }
        if after.last_completed_row == self.last_completed_row {
            assert forall|z: Coord|
                z.spec_valid_coord(w, h) && z.y
                    < after.last_completed_row implies #[trigger] grown.contains(z) by {
                assert(region.contains(z));
            }
        }
        match self.mode {
            HuntKillMode::Kill => {
                let seen = maze.explored@.insert(c);
                assert(region.contains(c));
                lemma_first_match(order, seen, false);
                match first_match(order, seen, false) {
                    Some((n, dd)) => {
                        assert(order.contains((n, dd)));
                        assert(listed.contains((n, dd)));
                        assert(c.spec_neighbour(dd, w, h) == Some(n));
                        let d = maze.direction_to(c, n)->0;
                        assert(maze.direction_to(c, n) is Some);
                        assert(c.spec_neighbour(d, w, h) == Some(n));
                        assert(grown =~= region.insert(n));
                        lemma_tree_grows(config, maze.walls@, region, root, c, d);
                    },
                    None => {
                        assert(grown =~= region);
                        lemma_index_bound(
                            Coord { x: 0, y: self.last_completed_row },
                            maze.config,
                        );
                    },
                }
            },
            HuntKillMode::Hunt => {
                lemma_index_bound(c, config);
                let found = if maze.explored@.contains(c) {
                    None
                } else {
                    first_match(order, maze.explored@, true)
                };
                lemma_first_match(order, maze.explored@, true);
                match found {
                    Some((n, dd)) => {
                        assert(order.contains((n, dd)));
                        assert(listed.contains((n, dd)));
                        assert(c.spec_neighbour(dd, w, h) == Some(n));
                        let d = maze.direction_to(c, n)->0;
                        assert(maze.direction_to(c, n) is Some);
                        assert(c.spec_neighbour(d, w, h) == Some(n));
                        lemma_shared_wall(c, d, config);
                        assert(grown =~= region.insert(c));
                        lemma_tree_grows(config, maze.walls@, region, root, n, d.opposite());
                    },
                    None => {
                        assert(grown =~= region);
                        assert(HuntKillState::cold(maze, region, c)) by {
                            if !region.contains(c) {
                                assert forall|d: Direction| #[trigger]
                                    c.spec_neighbour(d, w, h) is Some implies !region.contains(
                                    c.spec_neighbour(d, w, h)->0,
                                ) by {
                                    let n = c.spec_neighbour(d, w, h)->0;
                                    assert(listed.contains((n, d)));
                                    assert(order.contains((n, d)));
                                }
                            }
                        }
                        match c.spec_neighbour(Direction::East, w, h) {
                            Some(e) => {
                                lemma_index_bound(e, config);
                                assert forall|z: Coord|
                                    z.spec_valid_coord(w, h) && z.y >= after.last_completed_row
                                        && (z.y < e.y || (z.y == e.y && z.x
                                        < e.x)) implies #[trigger] HuntKillState::cold(
                                    result,
                                    grown,
                                    z,
                                ) by {
                                    if z != c {
                                        assert(HuntKillState::cold(maze, region, z));
                                    }
                                }
                            },
                            None => {
                                if c.y < h - 1 {
                                    let next = Coord { x: 0, y: (c.y + 1) as i32 };
                                    lemma_index_bound(next, config);
                                    if after.last_completed_row != self.last_completed_row {
                                        assert forall|z: Coord|
                                            z.spec_valid_coord(w, h) && z.y
                                                < after.last_completed_row implies #[trigger] grown.contains(
                                            z,
                                        ) by {
                                            if z.y == c.y {
                                                assert(row(c.y, w).contains(z));
                                            }
                                        }
                                    } else {
                                        assert forall|z: Coord|
                                            z.spec_valid_coord(w, h) && z.y
                                                >= after.last_completed_row && (z.y < next.y || (z.y
                                                == next.y && z.x
                                                < next.x)) implies #[trigger] HuntKillState::cold(
                                            result,
                                            grown,
                                            z,
                                        ) by {
                                            if z != c {
                                                assert(HuntKillState::cold(maze, region, z));
                                            }
                                        }
                                    }
                                } else {
                                    assert forall|z: Coord|
                                        z.spec_valid_coord(w, h) && z.y
                                            >= after.last_completed_row implies #[trigger] HuntKillState::cold(
                                        result,
                                        grown,
                                        z,
                                    ) by {
                                        if z != c {
                                            assert(HuntKillState::cold(maze, region, z));
                                        }
                                    }
                                }
                            },
                        }
                    },
                }
            },
        }
    }

    /// When the hunt has ended, the maze is perfect.
    pub proof fn lemma_done_perfect(self, maze: &Maze)
        requires
            maze.wf(),
            self.inv(maze),
            self.current is None,
        ensures
            perfect(maze.config, maze.walls@),
    {
        reveal(HuntKillState::inv);
        let region = self.region(maze);
        let w = maze.config.width;
        let h = maze.config.height;
        let root = Coord { x: 0, y: 0 };
        assert(closed(maze.config, region)) by {
            assert forall|c: Coord, d: Direction|
                region.contains(c) && #[trigger] c.spec_neighbour(d, w, h) is Some implies region.contains(
                c.spec_neighbour(d, w, h)->0,
            ) by {
                let z = c.spec_neighbour(d, w, h)->0;
                assert(all_cells(maze.config).contains(c));
                lemma_shared_wall(c, d, maze.config);
                if z.y >= self.last_completed_row {
                    assert(HuntKillState::cold(maze, region, z));
                    assert(z.spec_neighbour(d.opposite(), w, h) is Some);
                }
            }
        }
        lemma_closed_is_all(maze.config, region, root);
        lemma_full_tree_perfect(maze.config, maze.walls@, root);
    }
}

impl Generator for HuntKill {
    open spec fn wf(&self) -> bool {
        true
    }

    open spec fn done(&self) -> bool {
        self@.current is None
    }

    fn is_done(&self) -> (r: bool) {
        self.current.is_none()
    }

    open spec fn inv(&self, maze: &Maze) -> bool {
        self@.inv(maze)
    }

    open spec fn fuel(&self, maze: &Maze) -> int {
        self@.fuel(maze)
    }

    proof fn lemma_fuel(&self, maze: &Maze) {
        self@.lemma_fuel_bound(maze);
    }

    proof fn lemma_done(&self, maze: &Maze) {
        self@.lemma_done_perfect(maze);
    }

    /// One tick: the neighbours of the current cell are shuffled where the
    /// tick looks at them.
    fn tick(&mut self, maze: &mut Maze, random: &mut StdRng) -> (r: Result<(), Error>)
        ensures
            final(maze).highlight_dark@ == old(maze).highlight_dark@,
            !old(self).done() ==> exists|order: Seq<(Coord, Direction)>|
                {
                    &&& order.to_multiset() == (old(self)@.current->0).spec_neighbours(
                        old(maze).config.width,
                        old(maze).config.height,
                    ).to_multiset()
                    &&& #[trigger] HuntKill::agrees(
                        HuntKill::outcome(old(self)@, old(maze), order),
                        final(self),
                        final(maze),
                        r,
                    )
                },
    {
        let mut around: Vec<(Coord, Direction)> = match self.current {
            Some(current) => maze.neighbours(&current),
            None => Vec::new(),
        };
        let idle = match self.current {
            Some(current) => match self.mode {
                HuntKillMode::Hunt => maze.explored.contains(&current),
                HuntKillMode::Kill => false,
            },
            None => true,
        };
        if !idle {
            shuffle(random, &mut around);
        }
        let r = self.advance(maze, &around);
        proof {
            if !old(self).done() {
                assert(HuntKill::agrees(
                    HuntKill::outcome(old(self)@, old(maze), around@),
                    self,
                    maze,
                    r,
                ));
                if old(self)@.inv(old(maze)) {
                    old(self)@.lemma_tick(old(maze), around@, self@, maze);
                }
            } else if old(self)@.inv(old(maze)) {
                old(self)@.lemma_inv_frame(old(maze), maze);
            }
        }
        r
    }
}

} // verus!
