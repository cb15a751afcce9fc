use vstd::prelude::*;
use crate::error::Error;
use crate::graph::{connected, is_walk, lemma_simple_walk_shortest};
use crate::maze::{Coord, Direction, Maze, Wall};
use crate::passages::{
    all_cells, leads, lemma_cell_count, lemma_open_neighbours, lemma_steps_symmetric,
    lemma_walk_stays, steps,
};
use crate::solver::trail::lemma_push_to_set;
use crate::solver::Solver;

verus! {

/// Depth-first search: a walk that goes on into cells not yet visited and
/// steps back where there are none.
#[derive(Debug)]
pub struct DFS {
    current: Coord,
    goal: Coord,
    stack: Vec<Coord>,
}

/// What the walk knows between two ticks.
pub struct DfsState {
    /// The cell the walk stands on.
    pub current: Coord,
    pub goal: Coord,
    /// The cells on the way from the start to the current cell, the start
    /// first and the current cell left out.
    pub stack: Seq<Coord>,
}

/// The first entry of a list whose cell is neither among the cells seen nor
/// on the stack.
pub open spec fn first_free(list: Seq<(Coord, Direction)>, seen: Set<Coord>, stack: Seq<Coord>)
    -> Option<(Coord, Direction)>
    decreases list.len(),
{
    if list.len() == 0 {
        None
    } else if !seen.contains(list[0].0) && !stack.contains(list[0].0) {
        Some(list[0])
    } else {
        first_free(list.drop_first(), seen, stack)
    }
}

/// What the first free entry is: an entry of the list whose cell is neither
/// seen nor on the stack, if the list has any.
pub proof fn lemma_first_free(list: Seq<(Coord, Direction)>, seen: Set<Coord>, stack: Seq<Coord>)
    ensures
        match first_free(list, seen, stack) {
            Some(e) => list.contains(e) && !seen.contains(e.0) && !stack.contains(e.0),
            None => forall|e: (Coord, Direction)| #[trigger]
                list.contains(e) ==> seen.contains(e.0) || stack.contains(e.0),
        },
    decreases list.len(),
{
    if list.len() > 0 {
        if !seen.contains(list[0].0) && !stack.contains(list[0].0) {
            assert(list[0] == list[0]);
        } else {
            let rest = list.drop_first();
            lemma_first_free(rest, seen, stack);
            match first_free(rest, seen, stack) {
                Some(e) => {
                    let i = choose|i: int| 0 <= i < rest.len() && rest[i] == e;
                    assert(list[i + 1] == e);
                },
                None => {
                    assert forall|e: (Coord, Direction)| #[trigger]
                        list.contains(e) implies seen.contains(e.0) || stack.contains(e.0) by {
                        let i = choose|i: int| 0 <= i < list.len() && list[i] == e;
                        if i > 0 {
                            assert(rest[i - 1] == e);
                            assert(rest.contains(e));
                        }
                    }
                },
            }
        }
    }
}

/// The cells the walk has been on: the explored cells and the start, which
/// is never marked.
pub open spec fn visited(maze: &Maze) -> Set<Coord> {
    maze.explored@.insert(maze.start)
}

/// The walk has been on every cell one step from the cell `c`.
pub open spec fn drained(maze: &Maze, c: Coord) -> bool {
    let adj = steps(maze.config, maze.walls@);
    forall|b: Coord| #[trigger] adj(c, b) ==> visited(maze).contains(b)
}

impl View for DFS {
    type V = DfsState;

    closed spec fn view(&self) -> DfsState {
        DfsState { current: self.current, goal: self.goal, stack: self.stack@ }
    }
}

impl DfsState {
    /// The cell the walk goes on to: none at the end of the maze, and
    /// elsewhere the first free neighbour that no wall separates from the
    /// current cell.
    pub open spec fn pick(self, maze: &Maze) -> Option<(Coord, Direction)> {
        if maze.end == self.current {
            None
        } else {
            first_free(maze.spec_connected_neighbours(self.current), maze.explored@, self.stack)
        }
    }

    /// The cells on the way from the start to the current cell.
    pub open spec fn path(self) -> Set<Coord> {
        self.stack.to_set().insert(self.current)
    }

    /// The way from the start to the current cell.
    pub open spec fn walk(self) -> Seq<Coord> {
        self.stack.push(self.current)
    }

    /// The way from the current cell back to the start.
    pub open spec fn way(self) -> Seq<Coord> {
        seq![self.current] + self.stack.reverse()
    }

    /// What holds between the ticks of a walk on a maze that nothing else
    /// changes: the way from the start to the current cell is a walk that
    /// visits no cell twice; the walk has been on its current cell and on
    /// the cells of the stack; every explored cell is on the way or has no
    /// cell one step from it that the walk has not been on; and the goal is
    /// explored only when the walk stands on it.
    #[verifier::opaque]
    pub open spec fn inv(self, maze: &Maze) -> bool {
        let adj = steps(maze.config, maze.walls@);
        let way = self.walk();
        &&& way[0] == maze.start
        &&& self.goal == maze.end
        &&& is_walk(adj, way)
        &&& way.no_duplicates()
        &&& self.current.spec_valid_coord(maze.config.width, maze.config.height)
        &&& maze.explored@.finite()
        &&& forall|c: Coord| #[trigger]
            maze.explored@.contains(c) ==> c.spec_valid_coord(
                maze.config.width,
                maze.config.height,
            ) && (way.contains(c) || drained(maze, c))
        &&& forall|i: int|
            0 <= i < self.stack.len() ==> visited(maze).contains(#[trigger] self.stack[i])
        &&& visited(maze).contains(self.current)
        &&& (maze.explored@.contains(self.goal) ==> self.current == self.goal)
        &&& forall|c: Coord|
            maze.explored@.contains(c) ==> #[trigger] connected(adj, maze.start, c)
        &&& maze.highlight_dark@ == Set::<Coord>::empty()
    }

    /// A bound on the number of ticks the walk has left.
    pub open spec fn fuel(self, maze: &Maze) -> int {
        2 * (maze.config.width * maze.config.height - visited(maze).len()) + self.stack.len()
    }

    /// A walk about to begin on a maze with nothing explored stands on the
    /// start.
    pub proof fn lemma_inv_at_start(self, maze: &Maze)
        requires
            maze.wf(),
            maze.explored@ == Set::<Coord>::empty(),
            maze.highlight_dark@ == Set::<Coord>::empty(),
            self == (DfsState { current: maze.start, goal: maze.end, stack: Seq::<Coord>::empty() }),
        ensures
            self.inv(maze),
    {
        reveal(DfsState::inv);
    }

    /// What holds between the ticks depends on the grid, the walls and the
    /// explored cells alone.
    pub proof fn lemma_inv_frame(self, maze: &Maze, other: &Maze)
        requires
            self.inv(maze),
            other.same_grid(maze),
            other.walls@ == maze.walls@,
            other.explored@ == maze.explored@,
            other.highlight_dark@ == maze.highlight_dark@,
        ensures
            self.inv(other),
    {
        reveal(DfsState::inv);
        assert forall|c: Coord| drained(maze, c) == drained(other, c) by {}
    }

    /// The fuel does not run below zero.
    pub proof fn lemma_fuel_bound(self, maze: &Maze)
        requires
            maze.wf(),
            self.inv(maze),
        ensures
            self.fuel(maze) >= 0,
    {
        reveal(DfsState::inv);
        lemma_cell_count(maze.config);
        vstd::set_lib::lemma_len_subset(visited(maze), all_cells(maze.config));
    }

    /// What the walk knows of the cells around its current cell: a walk
    /// leads from the start to the current cell, which is no neighbour of
    /// itself, and the start lies on the way.
    proof fn lemma_ahead(self, maze: &Maze)
        requires
            maze.wf(),
            self.inv(maze),
        ensures
            connected(steps(maze.config, maze.walls@), maze.start, self.current),
            self.walk().contains(maze.start),
            !steps(maze.config, maze.walls@)(self.current, self.current),
    {
        reveal(DfsState::inv);
        let way = self.walk();
        crate::solver::shortest::lemma_no_self_step(maze, self.current);
        assert(way[0] == maze.start && way.last() == self.current);
    }

    /// Cells around which the walk has been everywhere stay such cells when
    /// more cells are explored.
    proof fn lemma_drained_stays(maze: &Maze, result: &Maze)
        requires
            result.same_grid(maze),
            result.walls@ == maze.walls@,
            maze.explored@.subset_of(result.explored@),
        ensures
            forall|b: Coord| drained(maze, b) ==> drained(result, b),
    {
        let adj = steps(maze.config, maze.walls@);
        assert forall|b: Coord| drained(maze, b) implies drained(result, b) by {
            assert forall|x: Coord| #[trigger] adj(b, x) implies visited(result).contains(x) by {
                assert(visited(maze).contains(x));
            }
        }
    }

    /// A step on to the cell picked keeps what holds between the ticks and
    /// uses up fuel.
    proof fn lemma_forward(self, maze: &Maze, after: DfsState, result: &Maze, n: Coord, d: Direction)
        requires
            maze.wf(),
            result.same_grid(maze),
            result.walls@ == maze.walls@,
            self.inv(maze),
            self.current != self.goal,
            self.pick(maze) == Some((n, d)),
            after == (DfsState { current: n, stack: self.stack.push(self.current), ..self }),
            result.explored@ == maze.explored@.insert(n),
            result.highlight_dark@ == Set::<Coord>::empty(),
        ensures
            after.inv(result),
            after.fuel(result) < self.fuel(maze),
    {
        self.lemma_ahead(maze);
        DfsState::lemma_drained_stays(maze, result);
        reveal(DfsState::inv);
        let adj = steps(maze.config, maze.walls@);
        let c = self.current;
        let seen = visited(maze);
        let way = self.walk();
        let around = maze.spec_connected_neighbours(c);
        lemma_first_free(around, maze.explored@, self.stack);
        lemma_open_neighbours(maze, c);
        assert(around.contains((n, d)));
        assert(leads(maze.config, maze.walls@, c, d, n));
        assert(adj(c, n));
        let next = after.walk();
        assert(next =~= way.push(n));
        assert forall|i: int| 0 <= i < next.len() - 1 implies adj(#[trigger] next[i], next[i + 1]) by {
            if i < way.len() - 1 {
                assert(adj(way[i], way[i + 1]));
            }
        }
        assert(!way.contains(n)) by {
            if way.contains(n) {
                let i = choose|i: int| 0 <= i < way.len() && way[i] == n;
                if i < self.stack.len() {
                    assert(self.stack[i] == n);
                }
            }
        }
        assert forall|x: Coord| #[trigger] result.explored@.contains(x) implies x.spec_valid_coord(
            maze.config.width,
            maze.config.height,
        ) && (next.contains(x) || drained(result, x)) by {
            if x == n {
                assert(next[next.len() - 1] == n);
            } else {
                assert(maze.explored@.contains(x));
                if way.contains(x) {
                    let i = choose|i: int| 0 <= i < way.len() && way[i] == x;
                    assert(next[i] == x);
                }
            }
        }
        assert forall|i: int| 0 <= i < after.stack.len() implies visited(result).contains(
            #[trigger] after.stack[i],
        ) by {
            if i < self.stack.len() {
                assert(visited(maze).contains(self.stack[i]));
            }
        }
        assert(visited(result) =~= seen.insert(n));
        assert(!seen.contains(n));
        crate::graph::lemma_connected_step(adj, maze.start, c, n);
    }

    /// Every cell one step from the current cell of a walk that picks none
    /// is a cell the walk has been on.
    proof fn lemma_nothing_ahead(self, maze: &Maze)
        requires
            maze.wf(),
            self.inv(maze),
            self.current != self.goal,
            self.pick(maze) is None,
        ensures
            drained(maze, self.current),
    {
        reveal(DfsState::inv);
        let adj = steps(maze.config, maze.walls@);
        let c = self.current;
        let around = maze.spec_connected_neighbours(c);
        lemma_first_free(around, maze.explored@, self.stack);
        lemma_open_neighbours(maze, c);
        assert forall|b: Coord| #[trigger] adj(c, b) implies visited(maze).contains(b) by {
            let d = if leads(maze.config, maze.walls@, c, Direction::North, b) {
                Direction::North
            } else if leads(maze.config, maze.walls@, c, Direction::East, b) {
                Direction::East
            } else if leads(maze.config, maze.walls@, c, Direction::South, b) {
                Direction::South
            } else {
                Direction::West
            };
            assert(around.contains((b, d)));
            if self.stack.contains(b) {
                let i = choose|i: int| 0 <= i < self.stack.len() && self.stack[i] == b;
                assert(visited(maze).contains(self.stack[i]));
            }
        }
    }

    /// After a step back to the cell on top of the stack, what holds
    /// between the ticks still holds.
    proof fn lemma_back_keeps(self, maze: &Maze, after: DfsState)
        requires
            maze.wf(),
            self.inv(maze),
            self.current != self.goal,
            drained(maze, self.current),
            self.stack.len() > 0,
            after == (DfsState {
                current: self.stack.last(),
                stack: self.stack.drop_last(),
                ..self
            }),
        ensures
            after.inv(maze),
    {
        reveal(DfsState::inv);
        let adj = steps(maze.config, maze.walls@);
        let c = self.current;
        let way = self.walk();
        let next = after.walk();
        assert(next =~= self.stack);
        assert(next =~= way.drop_last());
        assert forall|i: int| 0 <= i < next.len() - 1 implies adj(#[trigger] next[i], next[i + 1]) by {
            assert(adj(way[i], way[i + 1]));
        }
        assert forall|i: int, j: int|
            0 <= i < next.len() && 0 <= j < next.len() && i != j implies next[i] != next[j] by {
            assert(way[i] != way[j]);
        }
        assert(way[0] == next[0]);
        assert(visited(maze).contains(self.stack[self.stack.len() - 1]));
        assert forall|x: Coord| #[trigger] maze.explored@.contains(x) implies next.contains(x)
            || drained(maze, x) by {
            if x != c && way.contains(x) {
                let i = choose|i: int| 0 <= i < way.len() && way[i] == x;
                assert(next[i] == x);
            }
        }
        assert forall|i: int| 0 <= i < after.stack.len() implies visited(maze).contains(
            #[trigger] after.stack[i],
        ) by {
            assert(visited(maze).contains(self.stack[i]));
        }
    }

    /// A step back to the cell on top of the stack keeps what holds between
    /// the ticks and uses up fuel.
    proof fn lemma_back(self, maze: &Maze, after: DfsState, result: &Maze)
        requires
            maze.wf(),
            result.same_grid(maze),
            result.walls@ == maze.walls@,
            self.inv(maze),
            self.current != self.goal,
            self.pick(maze) is None,
            self.stack.len() > 0,
            after == (DfsState {
                current: self.stack.last(),
                stack: self.stack.drop_last(),
                ..self
            }),
            result.explored@ == maze.explored@,
            result.highlight_dark@ == Set::<Coord>::empty(),
        ensures
            after.inv(result),
            after.fuel(result) < self.fuel(maze),
    {
        self.lemma_nothing_ahead(maze);
        self.lemma_back_keeps(maze, after);
        assert(result.highlight_dark@ == maze.highlight_dark@) by {
            reveal(DfsState::inv);
        }
        after.lemma_inv_frame(maze, result);
    }

    /// A walk that picks no cell and has nowhere to step back to has been
    /// on every cell that a walk leads to from the start, and the goal is
    /// not among them.
    proof fn lemma_stuck(self, maze: &Maze)
        requires
            maze.wf(),
            self.inv(maze),
            self.current != self.goal,
            self.pick(maze) is None,
            self.stack.len() == 0,
        ensures
            !connected(steps(maze.config, maze.walls@), maze.start, maze.end),
    {
        self.lemma_nothing_ahead(maze);
        reveal(DfsState::inv);
        let adj = steps(maze.config, maze.walls@);
        let c = self.current;
        let seen = visited(maze);
        let way = self.walk();
        if connected(adj, maze.start, maze.end) {
            let p = choose|p: Seq<Coord>| #[trigger]
                is_walk(adj, p) && p[0] == maze.start && p.last() == maze.end;
            assert(way[0] == c);
            assert forall|a: Coord, b: Coord| #[trigger] adj(a, b) && seen.contains(
                a,
            ) implies seen.contains(b) by {
                if a != c {
                    assert(maze.explored@.contains(a));
                    if way.contains(a) {
                        let i = choose|i: int| 0 <= i < way.len() && way[i] == a;
                    }
                    assert(drained(maze, a));
                }
            }
            lemma_walk_stays(adj, seen, p);
            assert(false);
        }
    }

    /// No cell is explored through a standing wall: the cell that a tick
    /// marks as explored lies one step from the start or from a cell
    /// explored before.
    pub proof fn lemma_explored_beside(
        self,
        maze: &Maze,
        after: DfsState,
        result: &Maze,
        r: Result<(), Error>,
        c: Coord,
    )
        requires
            maze.wf(),
            self.inv(maze),
            DFS::ticked(self, maze, after, result, r),
            result.explored@.contains(c),
            !maze.explored@.contains(c),
        ensures
            exists|p: Coord|
                (p == maze.start || maze.explored@.contains(p)) && #[trigger] steps(
                    maze.config,
                    maze.walls@,
                )(p, c),
    {
        reveal(DfsState::inv);
        let adj = steps(maze.config, maze.walls@);
        let around = maze.spec_connected_neighbours(self.current);
        lemma_first_free(around, maze.explored@, self.stack);
        lemma_open_neighbours(maze, self.current);
        let (n, d) = self.pick(maze)->0;
        assert(around.contains((n, d)));
        assert(leads(maze.config, maze.walls@, self.current, d, n));
        assert(adj(self.current, c));
        assert(visited(maze).contains(self.current));
    }

    /// A tick of a walk that is not at its goal keeps what holds between
    /// the ticks and uses up fuel, and does not fail where a walk leads
    /// from the start to the goal.
    pub proof fn lemma_tick(self, maze: &Maze, after: DfsState, result: &Maze, r: Result<(), Error>)
        requires
            maze.wf(),
            result.same_grid(maze),
            result.walls@ == maze.walls@,
            self.inv(maze),
            self.current != self.goal,
            DFS::ticked(self, maze, after, result, r),
        ensures
            connected(steps(maze.config, maze.walls@), maze.start, maze.end) ==> r is Ok,
            r is Ok ==> after.inv(result) && after.fuel(result) < self.fuel(maze),
    {
        match self.pick(maze) {
            Some((n, d)) => {
                self.lemma_forward(maze, after, result, n, d);
            },
            None => {
                if self.stack.len() > 0 {
                    self.lemma_back(maze, after, result);
                } else {
                    self.lemma_stuck(maze);
                }
            },
        }
    }

    /// The cells on the way back are the current cell and the cells on the
    /// stack.
    pub proof fn lemma_way_set(self)
        ensures
            self.way().to_set() == self.path(),
    {
        let way = self.way();
        assert forall|c: Coord| way.to_set().contains(c) <==> self.path().contains(c) by {
            if way.contains(c) {
                let i = choose|i: int| 0 <= i < way.len() && way[i] == c;
                if i > 0 {
                    assert(way[i] == self.stack.reverse()[i - 1]);
                    assert(self.stack[self.stack.len() - i] == c);
                    assert(self.stack.contains(c));
                }
            }
            if self.stack.contains(c) {
                let j = choose|j: int| 0 <= j < self.stack.len() && self.stack[j] == c;
                assert(way[self.stack.len() - j] == self.stack.reverse()[self.stack.len() - j - 1]);
                assert(way[self.stack.len() - j] == c);
            }
            if c == self.current {
                assert(way[0] == c);
            }
        }
        assert(way.to_set() =~= self.path());
    }

    /// The way from the current cell back to the start is the way from the
    /// start to the current cell read from its end.
    pub proof fn lemma_way_back(self)
        ensures
            self.way().reverse() == self.walk(),
            self.way().len() == self.walk().len(),
            self.way()[0] == self.current,
            self.way().last() == self.walk()[0],
    {
        let way = self.way();
        let walk = self.walk();
        assert(way.reverse() =~= walk) by {
            assert forall|i: int| 0 <= i < walk.len() implies way.reverse()[i] == walk[i] by {
                let j = way.len() - 1 - i;
                if j >= 1 {
                    assert(way[j] == self.stack.reverse()[j - 1]);
                }
            }
        }
        if self.stack.len() > 0 {
            assert(way.last() == self.stack.reverse()[self.stack.len() - 1]);
        }
    }
}

impl DFS {
    /// What a tick does. A walk that stands on the goal stays as it is. Any
    /// other walk goes on to the cell picked, which it marks as explored,
    /// or steps back to the cell on top of the stack if none is picked, and
    /// fails if the stack is empty then. After a step the bright mark shows
    /// the current cell and the medium marks show the way back to the
    /// start.
    pub open spec fn ticked(
        before: DfsState,
        maze: &Maze,
        after: DfsState,
        result: &Maze,
        r: Result<(), Error>,
    ) -> bool {
        if before.current == before.goal {
            &&& r is Ok
            &&& after == before
            &&& result.same_marks(maze)
        } else {
            match before.pick(maze) {
                Some((n, _)) => {
                    &&& r is Ok
                    &&& after == (DfsState {
                        current: n,
                        stack: before.stack.push(before.current),
                        ..before
                    })
                    &&& result.explored@ == maze.explored@.insert(n)
                    &&& result.highlight_bright@ == Set::<Coord>::empty().insert(n)
                    &&& result.highlight_medium@ == after.path()
                    &&& result.highlight_dark@ == Set::<Coord>::empty()
                },
                None => if before.stack.len() > 0 {
                    &&& r is Ok
                    &&& after == (DfsState {
                        current: before.stack.last(),
                        stack: before.stack.drop_last(),
                        ..before
                    })
                    &&& result.explored@ == maze.explored@
                    &&& result.highlight_bright@ == Set::<Coord>::empty().insert(after.current)
                    &&& result.highlight_medium@ == after.path()
                    &&& result.highlight_dark@ == Set::<Coord>::empty()
                } else {
                    &&& r == Err::<(), Error>(Error::ImpossibleMaze)
                    &&& after == before
                    &&& result.explored@ == maze.explored@
                    &&& result.highlight_bright@ == Set::<Coord>::empty()
                    &&& result.highlight_medium@ == maze.highlight_medium@
                    &&& result.highlight_dark@ == maze.highlight_dark@
                },
            }
        }
    }

    /// A tick is a function of the walk and the maze: what it comes to
    /// once, it comes to again.
    pub proof fn lemma_tick_repeats(
        before: DfsState,
        maze: &Maze,
        first: (DfsState, &Maze, Result<(), Error>),
        second: (DfsState, &Maze, Result<(), Error>),
    )
        requires
            DFS::ticked(before, maze, first.0, first.1, first.2),
            DFS::ticked(before, maze, second.0, second.1, second.2),
        ensures
            first.0 == second.0,
            first.1.same_marks(second.1),
            first.2 == second.2,
    {
        if first.2 is Ok && second.2 is Ok {
            assert(first.2->Ok_0 == second.2->Ok_0);
        }
    }

    /// In a maze with every wall standing, the first tick of a walk fails:
    /// no cell is left to visit.
    pub proof fn lemma_walled_in(
        before: DfsState,
        maze: &Maze,
        after: DfsState,
        result: &Maze,
        r: Result<(), Error>,
    )
        requires
            forall|w: Wall| #[trigger] maze.config.is_wall(w) ==> maze.walls@.contains(w),
            before.stack.len() == 0,
            before.current != before.goal,
            DFS::ticked(before, maze, after, result, r),
        ensures
            r == Err::<(), Error>(Error::ImpossibleMaze),
    {
        crate::passages::lemma_walled_in(maze, before.current);
    }

    /// A walk that stands on the start of the maze.
    pub fn new(maze: &Maze) -> (s: DFS)
        ensures
            s@ == (DfsState { current: maze.start, goal: maze.end, stack: Seq::<Coord>::empty() }),
            maze.wf() && maze.explored@ == Set::<Coord>::empty() && maze.highlight_dark@ == Set::<
                Coord,
            >::empty() ==> s.inv(maze),
    {
        let s = DFS { current: maze.start, goal: maze.end, stack: Vec::new() };
        proof {
            if maze.wf() && maze.explored@ == Set::<Coord>::empty() && maze.highlight_dark@
                == Set::<Coord>::empty() {
                s@.lemma_inv_at_start(maze);
            }
        }
        s
    }

    fn on_stack(&self, coord: &Coord) -> (r: bool)
        ensures
            r == self@.stack.contains(*coord),
    {
        let mut i: usize = 0;
        while i < self.stack.len()
            invariant
                i <= self.stack.len(),
                forall|j: int| 0 <= j < i ==> self.stack@[j] != *coord,
            decreases self.stack.len() - i,
        {
            if self.stack[i] == *coord {
                return true;
            }
            i += 1;
        }
        false
    }

    /// The cell the walk goes on to, if there is one.
    pub fn available_neighbour(&self, maze: &Maze) -> (r: Option<(Coord, Direction)>)
        requires
            maze.wf(),
        ensures
            r == self@.pick(maze),
    {
        if maze.end == self.current {
            return None;
        }
        let around = maze.connected_neighbours(&self.current);
        let ghost seen = maze.explored@;
        let mut i: usize = 0;
        assert(around@.skip(0) == around@);
        while i < around.len()
            invariant
                i <= around.len(),
                maze.end != self.current,
                around@ == maze.spec_connected_neighbours(self.current),
                seen == maze.explored@,
                first_free(around@, seen, self@.stack) == first_free(
                    around@.skip(i as int),
                    seen,
                    self@.stack,
                ),
            decreases around.len() - i,
        {
            let entry = around[i];
            assert(around@.skip(i as int)[0] == entry);
            let explored = maze.explored.contains(&entry.0);
            let stacked = self.on_stack(&entry.0);
            if !explored && !stacked {
                return Some(entry);
            }
            assert(around@.skip(i as int).drop_first() == around@.skip(i + 1));
            i += 1;
        }
        None
    }

    fn highlight_path(&self, maze: &mut Maze)
        ensures
            final(maze).same_grid(old(maze)),
            final(maze).walls@ == old(maze).walls@,
            final(maze).explored@ == old(maze).explored@,
            final(maze).highlight_bright@ == old(maze).highlight_bright@,
            final(maze).highlight_dark@ == old(maze).highlight_dark@,
            final(maze).highlight_medium@ == self@.path(),
    {
        maze.highlight_medium.clear();
        let mut i: usize = 0;
        while i < self.stack.len()
            invariant
                i <= self.stack.len(),
                maze.same_grid(old(maze)),
                maze.walls@ == old(maze).walls@,
                maze.explored@ == old(maze).explored@,
                maze.highlight_bright@ == old(maze).highlight_bright@,
                maze.highlight_dark@ == old(maze).highlight_dark@,
                maze.highlight_medium@ == self.stack@.take(i as int).to_set(),
            decreases self.stack.len() - i,
        {
            maze.highlight_medium.insert(self.stack[i]);
            proof {
                assert(self.stack@.take(i + 1) == self.stack@.take(i as int).push(
                    self.stack@[i as int],
                ));
                lemma_push_to_set(self.stack@.take(i as int), self.stack@[i as int]);
            }
            i += 1;
        }
        assert(self.stack@.take(self.stack.len() as int) == self.stack@);
        maze.highlight_medium.insert(self.current);
    }
}

impl Solver for DFS {
    open spec fn wf(&self) -> bool {
        true
    }

    open spec fn position(&self) -> Coord {
        self@.current
    }

    open spec fn goal(&self) -> Coord {
        self@.goal
    }

    open spec fn way(&self) -> Seq<Coord> {
        self@.way()
    }

    open spec fn frontier(&self) -> Set<Coord> {
        Set::empty()
    }

    open spec fn inv(&self, maze: &Maze) -> bool {
        self@.inv(maze)
    }

    open spec fn fuel(&self, maze: &Maze) -> int {
        self@.fuel(maze)
    }

    fn is_done(&self) -> (r: bool) {
        self.goal == self.current
    }

    fn path(&self) -> (r: Vec<Coord>) {
        let mut cells: Vec<Coord> = Vec::new();
        cells.push(self.current);
        let mut i: usize = self.stack.len();
        while i > 0
            invariant
                i <= self.stack.len(),
                cells@.len() == 1 + self.stack.len() - i,
                cells@[0] == self.current,
                forall|j: int|
                    1 <= j < cells@.len() ==> cells@[j] == self.stack@[self.stack.len() - j],
            decreases i,
        {
            i -= 1;
            cells.push(self.stack[i]);
        }
        assert(cells@ =~= seq![self@.current] + self@.stack.reverse());
        cells
    }

    proof fn lemma_fuel(&self, maze: &Maze) {
        self@.lemma_fuel_bound(maze);
    }

    proof fn lemma_way(&self, maze: &Maze) {
        reveal(DfsState::inv);
        self@.lemma_way_back();
    }

    proof fn lemma_frontier(&self, maze: &Maze) {
        reveal(DfsState::inv);
    }

    proof fn lemma_explored(&self, maze: &Maze, c: Coord) {
        reveal(DfsState::inv);
    }

    proof fn lemma_shortest(&self, maze: &Maze, walk: Seq<Coord>) {
        reveal(DfsState::inv);
        self@.lemma_way_back();
        lemma_steps_symmetric(maze.config, maze.walls@);
        lemma_simple_walk_shortest(steps(maze.config, maze.walls@), self@.walk(), walk);
    }

    fn tick(&mut self, maze: &mut Maze) -> (r: Result<(), Error>)
        ensures
            DFS::ticked(old(self)@, old(maze), final(self)@, final(maze), r),
    {
        if self.is_done() {
            proof {
                if old(self)@.inv(old(maze)) {
                    old(self)@.lemma_inv_frame(old(maze), maze);
                }
            }
            return Ok(());
        }
        let pick = self.available_neighbour(maze);
        maze.highlight_bright.clear();

        let mut stuck = false;
        match pick {
            Some((neighbour, _)) => {
                maze.explored.insert(neighbour);
                self.stack.push(self.current);
                self.current = neighbour;
            },
            None => {
                match self.stack.pop() {
                    Some(previous) => {
                        self.current = previous;
                    },
                    None => {
                        stuck = true;
                    },
                }
            },
        }

        let r = if stuck {
            Err(Error::ImpossibleMaze)
        } else {
            maze.highlight_bright.insert(self.current);
            maze.highlight_dark.clear();
            self.highlight_path(maze);
            Ok(())
        };
        proof {
            if old(self)@.inv(old(maze)) {
                old(self)@.lemma_tick(old(maze), self@, maze, r);
            }
            self@.lemma_way_set();
        }
        r
    }
}

} // verus!
