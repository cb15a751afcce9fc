use rand::StdRng;
use vstd::prelude::*;
use crate::error::Error;
use crate::generator::{
    find_first, first_match, fresh_neighbour, lemma_first_match, lemma_neighbour_entries,
    lemma_same_items, Generator,
};
use crate::maze::{Coord, Direction, Maze, Wall};
use crate::passages::{
    all_cells, closed, lemma_cell_count, lemma_closed_is_all, lemma_full_tree_perfect,
    lemma_tree_grows, lemma_tree_seed, tree_over,
};
use crate::random::shuffle;

verus! {

/// The recursive backtracker: a walk that goes on into cells not yet seen
/// and steps back where there are none.
pub struct DFS {
    pub current: Option<Coord>,
    pub stack: Vec<Coord>,
}

impl DFS {
    /// A walk about to leave the start of the maze.
    pub fn new(maze: &Maze) -> (g: DFS)
        ensures
            g.current == Some(maze.start),
            g.stack@ == Seq::<Coord>::empty(),
            maze.wf() && maze.untouched() ==> g.inv(maze),
    {
        let g = DFS { current: Some(maze.start), stack: Vec::new() };
        proof {
            if maze.wf() && maze.untouched() {
                g.lemma_inv_at_start(maze);
            }
        }
        g
    }

    /// The first cell of a list of neighbours that is not explored yet.
    pub fn available_neighbour(&self, maze: &Maze, shuffled: &Vec<(Coord, Direction)>) -> (r:
        Option<(Coord, Direction)>)
        ensures
            r == if self.current is Some {
                first_match(shuffled@, maze.explored@, false)
            } else {
                None
            },
    {
        if self.current.is_none() {
            return None;
        }
        find_first(shuffled, &maze.explored, false)
    }

    /// The walk went on from `c` to `n`: the wall between them is down, `n`
    /// is explored, and `c` waits on the stack.
    pub open spec fn moved(
        before: &DFS,
        maze: &Maze,
        after: &DFS,
        result: &Maze,
        c: Coord,
        n: Coord,
        d: Direction,
    ) -> bool {
        &&& result.walls@ == maze.walls@.remove(c.spec_wall(d, maze.config))
        &&& result.explored@ == maze.explored@.insert(c).insert(n)
        &&& result.highlight_medium@ == maze.highlight_medium@.insert(c)
        &&& after.current == Some(n)
        &&& after.stack@ == before.stack@.push(c)
    }

    /// The walk could not go on from `c`: it steps back to the cell on top
    /// of the stack, and ends where the stack is empty.
    pub open spec fn retreated(before: &DFS, maze: &Maze, after: &DFS, result: &Maze, c: Coord)
        -> bool {
        &&& result.walls@ == maze.walls@
        &&& result.explored@ == maze.explored@.insert(c)
        &&& result.highlight_medium@ == maze.highlight_medium@.remove(c)
        &&& after.current == if before.stack@.len() > 0 {
            Some(before.stack@.last())
        } else {
            None
        }
        &&& after.stack@ == if before.stack@.len() > 0 {
            before.stack@.drop_last()
        } else {
            before.stack@
        }
    }

    /// The walk stopped on an error: the marks of `c` are set, and nothing
    /// else has changed.
    pub open spec fn stuck(before: &DFS, maze: &Maze, after: &DFS, result: &Maze, c: Coord)
        -> bool {
        &&& result.walls@ == maze.walls@
        &&& result.explored@ == maze.explored@.insert(c)
        &&& result.highlight_medium@ == maze.highlight_medium@.insert(c)
        &&& after.current == before.current
        &&& after.stack@ == before.stack@
    }

    /// What a tick does with the neighbours of the current cell in the order
    /// given. A walk that has ended stays as it is, and the bright marks are
    /// cleared. Any other walk marks its current cell and goes on to the
    /// first neighbour in the list that is not explored, or steps back if
    /// there is none; it fails where that entry of the list is no neighbour
    /// of the current cell.
    pub open spec fn advanced(
        before: &DFS,
        maze: &Maze,
        shuffled: Seq<(Coord, Direction)>,
        after: &DFS,
        result: &Maze,
        r: Result<(), Error>,
    ) -> bool {
        &&& result.highlight_dark@ == maze.highlight_dark@
        &&& match before.current {
            None => {
                &&& r is Ok
                &&& after.current == before.current
                &&& after.stack@ == before.stack@
                &&& result.walls@ == maze.walls@
                &&& result.explored@ == maze.explored@
                &&& result.highlight_bright@ == Set::<Coord>::empty()
                &&& result.highlight_medium@ == maze.highlight_medium@
            },
            Some(c) => {
                &&& result.highlight_bright@ == Set::<Coord>::empty().insert(c)
                &&& match first_match(shuffled, maze.explored@.insert(c), false) {
                    Some((n, _)) => match maze.direction_to(c, n) {
                        Some(d) => r is Ok && DFS::moved(before, maze, after, result, c, n, d)
                            && !c.spec_wall(d, maze.config).border,
                        None => r == Err::<(), Error>(Error::NotNeighbours(c, n)) && DFS::stuck(
                            before,
                            maze,
                            after,
                            result,
                            c,
                        ),
                    },
                    None => r is Ok && DFS::retreated(before, maze, after, result, c),
                }
            },
        }
    }

    /// A tick is a function of the walk, the maze and the order of the
    /// neighbours: what it comes to once, it comes to again.
    pub proof fn lemma_advance_repeats(
        before: &DFS,
        maze: &Maze,
        shuffled: Seq<(Coord, Direction)>,
        first: (&DFS, &Maze, Result<(), Error>),
        second: (&DFS, &Maze, Result<(), Error>),
    )
        requires
            DFS::advanced(before, maze, shuffled, first.0, first.1, first.2),
            DFS::advanced(before, maze, shuffled, second.0, second.1, second.2),
        ensures
            first.0.current == second.0.current,
            first.0.stack@ == second.0.stack@,
            first.1.walls@ == second.1.walls@,
            first.1.same_marks(second.1),
            first.2 == second.2,
    {
        if first.2 is Ok && second.2 is Ok {
            assert(first.2->Ok_0 == second.2->Ok_0);
        }
    }

    /// One tick with the neighbours of the current cell in the order given:
    /// the walk goes on to the first of them that is not explored, and
    /// steps back if there is none.
    pub fn advance(&mut self, maze: &mut Maze, shuffled: &Vec<(Coord, Direction)>) -> (r: Result<
        (),
        Error,
    >)
        requires
            old(maze).wf(),
        ensures
            final(maze).same_grid(old(maze)),
            old(self).current is None ==> *final(self) == *old(self),
            DFS::advanced(old(self), old(maze), shuffled@, final(self), final(maze), r),
    {
        maze.highlight_bright.clear();

        let current = match self.current {
            Some(current) => current,
            None => return Ok(()),
        };

        maze.highlight_bright.insert(current);
        maze.highlight_medium.insert(current);
        maze.explored.insert(current);

        match self.available_neighbour(maze, shuffled) {
            Some((neighbour, _)) => {
                match maze.link(&current, &neighbour) {
                    Ok(()) => {},
                    Err(e) => {
                        return Err(e);
                    },
                }
                maze.explored.insert(neighbour);
                self.stack.push(current);
                self.current = Some(neighbour);
            },
            None => {
                maze.highlight_medium.remove(&current);
                self.current = self.stack.pop();
                assert(maze.highlight_medium@ =~= old(maze).highlight_medium@.remove(current));
            },
        }

        Ok(())
    }
}

impl DFS {
    /// The cells the walk has reached: the explored ones and the current
    /// one.
    pub open spec fn region(&self, maze: &Maze) -> Set<Coord> {
        match self.current {
            Some(c) => maze.explored@.insert(c),
            None => maze.explored@,
        }
    }

    /// All neighbours of the cell `x` are in the region.
    pub open spec fn settled(maze: &Maze, region: Set<Coord>, x: Coord) -> bool {
        forall|d: Direction| #[trigger]
            x.spec_neighbour(d, maze.config.width, maze.config.height) is Some ==> region.contains(
                x.spec_neighbour(d, maze.config.width, maze.config.height)->0,
            )
    }

    /// A walk about to begin on a maze with every wall standing and nothing
    /// explored has reached a tree of one cell.
    pub proof fn lemma_inv_at_start(&self, maze: &Maze)
        requires
            maze.wf(),
            forall|w: Wall| maze.config.is_wall(w) ==> maze.walls@.contains(w),
            maze.explored@ == Set::<Coord>::empty(),
            self.current == Some(maze.start),
            self.stack@ == Seq::<Coord>::empty(),
        ensures
            self.inv(maze),
    {
        lemma_tree_seed(maze.config, maze.walls@, maze.start);
    }

    /// A step of the walk to a cell not reached yet keeps what holds
    /// between the ticks, and uses up fuel.
    pub proof fn lemma_moved(
        before: &DFS,
        maze: &Maze,
        after: &DFS,
        result: &Maze,
        c: Coord,
        n: Coord,
        d: Direction,
    )
        requires
            maze.wf(),
            result.same_grid(maze),
            before.inv(maze),
            before.current == Some(c),
            c.spec_neighbour(d, maze.config.width, maze.config.height) == Some(n),
            !maze.explored@.insert(c).contains(n),
            DFS::moved(before, maze, after, result, c, n, d),
        ensures
            after.inv(result),
            after.fuel(result) < before.fuel(maze),
    {
        let region = before.region(maze);
        let grown = after.region(result);
        assert(grown =~= region.insert(n));
        lemma_tree_grows(maze.config, maze.walls@, region, maze.start, c, d);
        assert forall|x: Coord| #[trigger] grown.contains(x) implies DFS::settled(result, grown, x)
            || after.current == Some(x) || after.stack@.contains(x) by {
            if x == n {
            } else if x == c {
                assert(after.stack@[before.stack@.len() as int] == c);
            } else if before.stack@.contains(x) {
                let i = choose|i: int| 0 <= i < before.stack@.len() && before.stack@[i] == x;
                assert(after.stack@[i] == x);
            } else {
                assert(DFS::settled(maze, region, x));
            }
        }
    }

    /// A step back keeps what holds between the ticks, and uses up fuel.
    pub proof fn lemma_retreated(before: &DFS, maze: &Maze, after: &DFS, result: &Maze, c: Coord)
        requires
            maze.wf(),
            result.same_grid(maze),
            before.inv(maze),
            before.current == Some(c),
            DFS::settled(maze, maze.explored@.insert(c), c),
            DFS::retreated(before, maze, after, result, c),
        ensures
            after.inv(result),
            after.fuel(result) < before.fuel(maze),
    {
        let region = before.region(maze);
        let kept = after.region(result);
        if before.stack@.len() > 0 {
            assert(region.contains(before.stack@[before.stack@.len() - 1]));
        }
        assert(kept =~= region);
        assert forall|x: Coord| #[trigger] kept.contains(x) implies DFS::settled(result, kept, x)
            || after.current == Some(x) || after.stack@.contains(x) by {
            if x == c {
            } else if before.stack@.contains(x) {
                let i = choose|i: int| 0 <= i < before.stack@.len() && before.stack@[i] == x;
                if i < before.stack@.len() - 1 {
                    assert(after.stack@[i] == x);
                }
            } else {
                assert(DFS::settled(maze, region, x));
            }
        }
    }

}

impl Generator for DFS {
    open spec fn wf(&self) -> bool {
        true
    }

    open spec fn done(&self) -> bool {
        self.current is None
    }

    fn is_done(&self) -> (r: bool) {
        self.current.is_none()
    }

    /// What holds between the ticks of a walk on a maze that nothing else
    /// changes: the walls that are down make a tree over the cells reached,
    /// rooted at the start; the stack holds cells reached; and every cell
    /// reached that is neither the current one nor on the stack has all its
    /// neighbours reached.
    open spec fn inv(&self, maze: &Maze) -> bool {
        let region = self.region(maze);
        &&& tree_over(maze.config, maze.walls@, region, maze.start)
        &&& (self.current is None ==> self.stack@.len() == 0)
        &&& forall|i: int| 0 <= i < self.stack@.len() ==> region.contains(#[trigger] self.stack@[i])
        &&& forall|x: Coord| #[trigger]
            region.contains(x) ==> DFS::settled(maze, region, x) || self.current == Some(x)
                || self.stack@.contains(x)
    }

    /// A bound on the number of ticks the walk has left.
    open spec fn fuel(&self, maze: &Maze) -> int {
        2 * (maze.config.width * maze.config.height - self.region(maze).len()) + self.stack@.len()
            + if self.current is Some {
            1int
        } else {
            0int
        }
    }

    proof fn lemma_fuel(&self, maze: &Maze) {
        lemma_cell_count(maze.config);
        vstd::set_lib::lemma_len_subset(self.region(maze), all_cells(maze.config));
    }

    proof fn lemma_done(&self, maze: &Maze) {
        let region = self.region(maze);
        assert(closed(maze.config, region)) by {
            assert forall|c: Coord, d: Direction|
                region.contains(c) && #[trigger] c.spec_neighbour(
                    d,
                    maze.config.width,
                    maze.config.height,
                ) is Some implies region.contains(
                c.spec_neighbour(d, maze.config.width, maze.config.height)->0,
            ) by {
                assert(DFS::settled(maze, region, c));
            }
        }
        lemma_closed_is_all(maze.config, region, maze.start);
        lemma_full_tree_perfect(maze.config, maze.walls@, maze.start);
    }

    /// One tick: the neighbours of the current cell are shuffled, and the
    /// walk goes on to one that is not explored, or steps back if all are.
    fn tick(&mut self, maze: &mut Maze, random: &mut StdRng) -> (r: Result<(), Error>)
        ensures
            old(self).current matches Some(c) ==> {
                let w = old(maze).config.width;
                let h = old(maze).config.height;
                let seen = old(maze).explored@.insert(c);
                &&& final(maze).highlight_bright@ == Set::<Coord>::empty().insert(c)
                &&& final(maze).highlight_dark@ == old(maze).highlight_dark@
                &&& if exists|d: Direction| fresh_neighbour(c, d, w, h, seen) is Some {
                    exists|d: Direction|
                        {
                            let n = fresh_neighbour(c, d, w, h, seen)->0;
                            &&& #[trigger] fresh_neighbour(c, d, w, h, seen) is Some
                            &&& if c.spec_valid_coord(w, h) {
                                r is Ok && DFS::moved(
                                    old(self),
                                    old(maze),
                                    final(self),
                                    final(maze),
                                    c,
                                    n,
                                    d,
                                )
                            } else {
                                r == Err::<(), Error>(Error::NotNeighbours(c, n)) && DFS::stuck(
                                    old(self),
                                    old(maze),
                                    final(self),
                                    final(maze),
                                    c,
                                )
                            }
                        }
                } else {
                    r is Ok && DFS::retreated(old(self), old(maze), final(self), final(maze), c)
                }
            },
    {
        let mut around: Vec<(Coord, Direction)> = match self.current {
            Some(current) => maze.neighbours(&current),
            None => Vec::new(),
        };
        let ghost listed = around@;
        shuffle(random, &mut around);
        let r = self.advance(maze, &around);
        proof {
            if let Some(c) = old(self).current {
                let w = old(maze).config.width;
                let h = old(maze).config.height;
                let seen = old(maze).explored@.insert(c);
                lemma_same_items(listed, around@);
                lemma_neighbour_entries(c, w, h);
                lemma_first_match(around@, seen, false);
                match first_match(around@, seen, false) {
                    Some((n, d)) => {
                        assert(around@.contains((n, d)));
                        assert(listed.contains((n, d)));
                        assert(c.spec_neighbour(d, w, h) == Some(n));
                        assert(fresh_neighbour(c, d, w, h, seen) == Some(n));
                        if c.spec_valid_coord(w, h) {
                            assert(old(maze).direction_to(c, n) == Some(d));
                        }
                        if old(self).inv(old(maze)) {
                            assert(old(self).region(old(maze)).contains(c));
                            DFS::lemma_moved(old(self), old(maze), self, maze, c, n, d);
                        }
                    },
                    None => {
                        assert forall|d: Direction|
                            fresh_neighbour(c, d, w, h, seen) is None by {
                            if c.spec_neighbour(d, w, h) is Some {
                                let n = c.spec_neighbour(d, w, h)->0;
                                assert(listed.contains((n, d)));
                                assert(around@.contains((n, d)));
                            }
                        }
                        if old(self).inv(old(maze)) {
                            assert(DFS::settled(old(maze), seen, c)) by {
                                assert forall|d: Direction| #[trigger]
                                    c.spec_neighbour(d, w, h) is Some implies seen.contains(
                                    c.spec_neighbour(d, w, h)->0,
                                ) by {
                                    assert(fresh_neighbour(c, d, w, h, seen) is None);
                                }
                            }
                            DFS::lemma_retreated(old(self), old(maze), self, maze, c);
                        }
                    },
                }
            }
        }
        r
    }
}

} // verus!
