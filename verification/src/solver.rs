use std::str::FromStr;
use vstd::prelude::*;
use crate::error::Error;
use crate::graph::{acyclic, connected, is_walk};
use crate::maze::{Coord, Maze};
use crate::passages::{perfect, steps};
use crate::text::{lowercase, to_lowercase};

pub mod dfs;
pub mod search;
pub mod shortest;
pub mod trail;

pub use self::dfs::{DfsState, DFS};
pub use self::search::{AStar, Dijkstra, Entry, Greedy, Priority, Search, SearchState, BFS};
pub use self::trail::{PathNode, Trail};

verus! {

/// The path-finding algorithms a caller can select.
#[derive(Debug, Clone, Copy, PartialEq, Eq, Structural)]
pub enum SolverType {
    DFS,
    BFS,
    Dijkstra,
    Greedy,
    AStar,
}

impl SolverType {
    /// The names by which the algorithms are selected.
    pub fn variants() -> (r: [&'static str; 5])
        ensures
            r[0]@ == "dfs"@,
            r[1]@ == "bfs"@,
            r[2]@ == "dijkstra"@,
            r[3]@ == "greedy"@,
            r[4]@ == "astar"@,
    {
        ["dfs", "bfs", "dijkstra", "greedy", "astar"]
    }

    /// The algorithm that a lowercase name selects.
    pub open spec fn named(name: Seq<char>) -> Option<SolverType> {
        if name == "dfs"@ {
            Some(SolverType::DFS)
        } else if name == "bfs"@ {
            Some(SolverType::BFS)
        } else if name == "dijkstra"@ {
            Some(SolverType::Dijkstra)
        } else if name == "greedy"@ {
            Some(SolverType::Greedy)
        } else if name == "astar"@ {
            Some(SolverType::AStar)
        } else {
            None
        }
    }

    /// The algorithm that a lowercase name selects.
    pub fn from_lowercase(name: &str) -> (r: Option<SolverType>)
        ensures
            r == SolverType::named(name@),
    {
        let name = name.to_owned();
        if name == "dfs".to_owned() {
            Some(SolverType::DFS)
        } else if name == "bfs".to_owned() {
            Some(SolverType::BFS)
        } else if name == "dijkstra".to_owned() {
            Some(SolverType::Dijkstra)
        } else if name == "greedy".to_owned() {
            Some(SolverType::Greedy)
        } else if name == "astar".to_owned() {
            Some(SolverType::AStar)
        } else {
            None
        }
    }

    /// The algorithm that a name selects, whatever the case of its letters.
    pub fn from_name(s: &str) -> (r: Result<SolverType, Error>)
        ensures
            match SolverType::named(lowercase(s@)) {
                Some(g) => r == Ok::<SolverType, Error>(g),
                None => r matches Err(Error::UnsupportedSolver(name)) && name@ == s@,
            },
    {
        let lowered = to_lowercase(s);
        match SolverType::from_lowercase(lowered.as_str()) {
            Some(g) => Ok(g),
            None => Err(Error::UnsupportedSolver(s.to_owned())),
        }
    }

    /// The algorithm of this kind, ready for its first tick on the maze.
    pub fn init(&self, maze: &Maze) -> (s: ActiveSolver)
        requires
            maze.wf(),
        ensures
            s.wf(),
            s.position() == maze.start,
            s.goal() == maze.end,
            maze.explored@ == Set::<Coord>::empty() && maze.highlight_dark@ == Set::<
                Coord,
            >::empty() ==> s.inv(maze),
            s.way() == seq![maze.start],
            s.frontier() == Set::<Coord>::empty(),
            match *self {
                SolverType::DFS => s matches ActiveSolver::DFS(walk) && walk@ == (DfsState {
                    current: maze.start,
                    goal: maze.end,
                    stack: Seq::<Coord>::empty(),
                }),
                SolverType::BFS => s matches ActiveSolver::BFS(search) && search@
                    == SearchState::at_start(maze, Priority::Arrival),
                SolverType::Dijkstra => s matches ActiveSolver::Dijkstra(search) && search@
                    == SearchState::at_start(maze, Priority::Distance),
                SolverType::Greedy => s matches ActiveSolver::Greedy(search) && search@
                    == SearchState::at_start(maze, Priority::Heuristic),
                SolverType::AStar => s matches ActiveSolver::AStar(search) && search@
                    == SearchState::at_start(maze, Priority::Both),
            },
    {
        proof {
            let root = PathNode { coord: maze.start, dist: 0, previous: None };
            assert(crate::solver::trail::chain(seq![root], 0) =~= seq![maze.start]);
            assert(seq![maze.start] + Seq::<Coord>::empty().reverse() =~= seq![maze.start]);
            assert(crate::solver::shortest::frontier(
                SearchState::at_start(maze, Priority::Arrival),
            ) =~= Set::<Coord>::empty());
            assert(crate::solver::shortest::frontier(
                SearchState::at_start(maze, Priority::Distance),
            ) =~= Set::<Coord>::empty());
            assert(crate::solver::shortest::frontier(
                SearchState::at_start(maze, Priority::Heuristic),
            ) =~= Set::<Coord>::empty());
            assert(crate::solver::shortest::frontier(
                SearchState::at_start(maze, Priority::Both),
            ) =~= Set::<Coord>::empty());
        }
        match *self {
            SolverType::DFS => ActiveSolver::DFS(DFS::new(maze)),
            SolverType::BFS => ActiveSolver::BFS(BFS::new(maze)),
            SolverType::Dijkstra => ActiveSolver::Dijkstra(Dijkstra::new(maze)),
            SolverType::Greedy => ActiveSolver::Greedy(Greedy::new(maze)),
            SolverType::AStar => ActiveSolver::AStar(AStar::new(maze)),
        }
    }
}

impl FromStr for SolverType {
    type Err = Error;

    /// The solver that a name selects, whatever the case of its letters;
    /// an unknown name comes back in the error.
    fn from_str(s: &str) -> (r: Result<SolverType, Error>)
        ensures
            match SolverType::named(lowercase(s@)) {
                Some(g) => r == Ok::<SolverType, Error>(g),
                None => r matches Err(Error::UnsupportedSolver(name)) && name@ == s@,
            },
    {
        SolverType::from_name(s)
    }
}

/// A path-finding algorithm that a caller advances tick by tick.
pub trait Solver: Sized {
    /// What holds of the algorithm's own state between ticks.
    spec fn wf(&self) -> bool;

    /// The cell the algorithm stands on.
    spec fn position(&self) -> Coord;

    /// The cell the algorithm is to reach.
    spec fn goal(&self) -> Coord;

    /// The cells on the way from the current cell back to the start.
    spec fn way(&self) -> Seq<Coord>;

    /// The cells that the algorithm has found and not visited yet.
    spec fn frontier(&self) -> Set<Coord>;

    /// What holds between the ticks of an algorithm that began on a maze
    /// with nothing explored and no dark mark, as long as nothing else
    /// changes the walls, the explored cells and the dark marks of the
    /// maze.
    spec fn inv(&self, maze: &Maze) -> bool;

    /// A bound on the number of ticks that the algorithm has left.
    spec fn fuel(&self, maze: &Maze) -> int;

    /// Tells whether the algorithm stands on its goal.
    fn is_done(&self) -> (r: bool)
        requires
            self.wf(),
        ensures
            r == (self.position() == self.goal()),
    ;

    /// The cells on the way from the current cell back to the start.
    fn path(&self) -> (r: Vec<Coord>)
        requires
            self.wf(),
        ensures
            r@ == self.way(),
    ;

    /// One unit of work. No tick changes a wall or forgets an explored
    /// cell, a tick of an algorithm that stands on its goal changes
    /// nothing, and a tick only fails where no cell is left to visit. After
    /// any other tick the bright mark is on the current cell and the medium
    /// marks are on the way back to the start. On a maze that nothing else
    /// changes, every tick that does not fail uses up fuel, and no tick
    /// fails where a walk leads from the start to the end of the maze.
    fn tick(&mut self, maze: &mut Maze) -> (r: Result<(), Error>)
        requires
            old(self).wf(),
            old(maze).wf(),
        ensures
            final(self).wf(),
            final(self).goal() == old(self).goal(),
            final(maze).same_grid(old(maze)),
            final(maze).walls@ == old(maze).walls@,
            old(maze).explored@.subset_of(final(maze).explored@),
            r is Err ==> r == Err::<(), Error>(Error::ImpossibleMaze),
            old(self).position() == old(self).goal() ==> {
                &&& r is Ok
                &&& *final(self) == *old(self)
                &&& final(maze).same_marks(old(maze))
            },
            r is Ok && old(self).position() != old(self).goal() ==> {
                &&& final(maze).highlight_bright@ == Set::<Coord>::empty().insert(
                    final(self).position(),
                )
                &&& final(maze).highlight_medium@ == final(self).way().to_set()
            },
            old(self).inv(old(maze)) ==> {
                &&& (connected(
                    steps(old(maze).config, old(maze).walls@),
                    old(maze).start,
                    old(maze).end,
                ) ==> r is Ok)
                &&& (r is Ok ==> final(self).inv(final(maze)))
                &&& (r is Ok && old(self).position() != old(self).goal() ==> final(self).fuel(
                    final(maze),
                ) < old(self).fuel(old(maze)))
            },
    ;

    /// The fuel does not run below zero.
    proof fn lemma_fuel(&self, maze: &Maze)
        requires
            self.wf(),
            maze.wf(),
            self.inv(maze),
        ensures
            self.fuel(maze) >= 0,
    ;

    /// The way back from the current cell, read from its end, is a walk
    /// from the start of the maze to the current cell.
    proof fn lemma_way(&self, maze: &Maze)
        requires
            self.wf(),
            maze.wf(),
            self.inv(maze),
        ensures
            self.goal() == maze.end,
            is_walk(steps(maze.config, maze.walls@), self.way().reverse()),
            self.way().last() == maze.start,
            self.way()[0] == self.position(),
    ;

    /// The dark marks are on the cells found and not visited yet.
    proof fn lemma_frontier(&self, maze: &Maze)
        requires
            self.wf(),
            maze.wf(),
            self.inv(maze),
        ensures
            maze.highlight_dark@ == self.frontier(),
    ;

    /// No cell is explored through a standing wall: a walk leads from the
    /// start of the maze to every explored cell.
    proof fn lemma_explored(&self, maze: &Maze, c: Coord)
        requires
            self.wf(),
            maze.wf(),
            self.inv(maze),
            maze.explored@.contains(c),
        ensures
            connected(steps(maze.config, maze.walls@), maze.start, c),
    ;

    /// In a maze where no step lies on a loop, no walk from the start to
    /// the current cell is shorter than the way back from that cell, once
    /// the algorithm has left the start. (A breadth-first search finds the
    /// start once more from the first cell it visits, and comes back to
    /// it.)
    proof fn lemma_shortest(&self, maze: &Maze, walk: Seq<Coord>)
        requires
            self.wf(),
            maze.wf(),
            self.inv(maze),
            self.position() != maze.start,
            acyclic(steps(maze.config, maze.walls@)),
            is_walk(steps(maze.config, maze.walls@), walk),
            walk[0] == maze.start,
            walk.last() == self.position(),
        ensures
            self.way().len() <= walk.len(),
    ;
}

/// Runs an algorithm until it stands on its goal. On a maze that nothing
/// else has changed since the algorithm began, and in which a walk leads
/// from the start to the end, this does not fail; and in a perfect maze no
/// walk from the start to the end is shorter than the way found.
pub fn solve<S: Solver>(solver: &mut S, maze: &mut Maze) -> (r: Result<(), Error>)
    requires
        old(solver).wf(),
        old(maze).wf(),
        old(solver).inv(old(maze)),
        connected(steps(old(maze).config, old(maze).walls@), old(maze).start, old(maze).end),
    ensures
        r is Ok,
        final(solver).wf(),
        final(solver).inv(final(maze)),
        final(solver).position() == final(maze).end,
        final(solver).goal() == final(maze).end,
        final(maze).same_grid(old(maze)),
        final(maze).walls@ == old(maze).walls@,
        is_walk(steps(final(maze).config, final(maze).walls@), final(solver).way().reverse()),
        final(solver).way().last() == final(maze).start,
        final(solver).way()[0] == final(maze).end,
        final(maze).highlight_dark@ == final(solver).frontier(),
        old(solver).position() != old(maze).end ==> {
            &&& final(maze).highlight_bright@ == Set::<Coord>::empty().insert(final(maze).end)
            &&& final(maze).highlight_medium@ == final(solver).way().to_set()
        },
        perfect(final(maze).config, final(maze).walls@) ==> forall|walk: Seq<Coord>|
            #[trigger] is_walk(steps(final(maze).config, final(maze).walls@), walk) && walk[0]
                == final(maze).start && walk.last() == final(maze).end ==> final(solver).way().len() <= walk.len(),
{
    proof {
        solver.lemma_way(maze);
    }
    loop
        invariant
            solver.wf(),
            maze.wf(),
            solver.inv(maze),
            maze.same_grid(old(maze)),
            maze.walls@ == old(maze).walls@,
            connected(steps(maze.config, maze.walls@), maze.start, maze.end),
            solver.goal() == maze.end,
            old(solver).position() != old(maze).end ==> (solver.position() == old(solver).position() && maze.same_marks(old(maze))) || {
                &&& maze.highlight_bright@ == Set::<Coord>::empty().insert(solver.position())
                &&& maze.highlight_medium@ == solver.way().to_set()
            },
        ensures
            solver.position() == solver.goal(),
        decreases solver.fuel(maze),
    {
        if solver.is_done() {
            break ;
        }
        proof {
            solver.lemma_fuel(maze);
        }
        match solver.tick(maze) {
            Ok(()) => {},
            Err(e) => {
                return Err(e);
            },
        }
        proof {
            solver.lemma_fuel(maze);
        }
    }
    proof {
        solver.lemma_way(maze);
        solver.lemma_frontier(maze);
        if perfect(maze.config, maze.walls@) {
            assert forall|walk: Seq<Coord>| #[trigger]
                is_walk(steps(maze.config, maze.walls@), walk) && walk[0] == maze.start
                    && walk.last() == maze.end implies solver.way().len() <= walk.len() by {
                solver.lemma_shortest(maze, walk);
            }
        }
    }
    Ok(())
}

/// One of the five algorithms, with its state.
pub enum ActiveSolver {
    DFS(DFS),
    BFS(BFS),
    Dijkstra(Dijkstra),
    Greedy(Greedy),
    AStar(AStar),
}

impl Solver for ActiveSolver {
    open spec fn wf(&self) -> bool {
        match self {
            ActiveSolver::DFS(s) => s.wf(),
            ActiveSolver::BFS(s) => s.wf(),
            ActiveSolver::Dijkstra(s) => s.wf(),
            ActiveSolver::Greedy(s) => s.wf(),
            ActiveSolver::AStar(s) => s.wf(),
        }
    }

    open spec fn position(&self) -> Coord {
        match self {
            ActiveSolver::DFS(s) => s.position(),
            ActiveSolver::BFS(s) => s.position(),
            ActiveSolver::Dijkstra(s) => s.position(),
            ActiveSolver::Greedy(s) => s.position(),
            ActiveSolver::AStar(s) => s.position(),
        }
    }

    open spec fn goal(&self) -> Coord {
        match self {
            ActiveSolver::DFS(s) => s.goal(),
            ActiveSolver::BFS(s) => s.goal(),
            ActiveSolver::Dijkstra(s) => s.goal(),
            ActiveSolver::Greedy(s) => s.goal(),
            ActiveSolver::AStar(s) => s.goal(),
        }
    }

    open spec fn way(&self) -> Seq<Coord> {
        match self {
            ActiveSolver::DFS(s) => s.way(),
            ActiveSolver::BFS(s) => s.way(),
            ActiveSolver::Dijkstra(s) => s.way(),
            ActiveSolver::Greedy(s) => s.way(),
            ActiveSolver::AStar(s) => s.way(),
        }
    }

    open spec fn frontier(&self) -> Set<Coord> {
        match self {
            ActiveSolver::DFS(s) => s.frontier(),
            ActiveSolver::BFS(s) => s.frontier(),
            ActiveSolver::Dijkstra(s) => s.frontier(),
            ActiveSolver::Greedy(s) => s.frontier(),
            ActiveSolver::AStar(s) => s.frontier(),
        }
    }

    open spec fn inv(&self, maze: &Maze) -> bool {
        match self {
            ActiveSolver::DFS(s) => s.inv(maze),
            ActiveSolver::BFS(s) => s.inv(maze),
            ActiveSolver::Dijkstra(s) => s.inv(maze),
            ActiveSolver::Greedy(s) => s.inv(maze),
            ActiveSolver::AStar(s) => s.inv(maze),
        }
    }

    open spec fn fuel(&self, maze: &Maze) -> int {
        match self {
            ActiveSolver::DFS(s) => s.fuel(maze),
            ActiveSolver::BFS(s) => s.fuel(maze),
            ActiveSolver::Dijkstra(s) => s.fuel(maze),
            ActiveSolver::Greedy(s) => s.fuel(maze),
            ActiveSolver::AStar(s) => s.fuel(maze),
        }
    }

    fn is_done(&self) -> (r: bool) {
        match self {
            ActiveSolver::DFS(s) => s.is_done(),
            ActiveSolver::BFS(s) => s.is_done(),
            ActiveSolver::Dijkstra(s) => s.is_done(),
            ActiveSolver::Greedy(s) => s.is_done(),
            ActiveSolver::AStar(s) => s.is_done(),
        }
    }

    fn path(&self) -> (r: Vec<Coord>) {
        match self {
            ActiveSolver::DFS(s) => s.path(),
            ActiveSolver::BFS(s) => s.path(),
            ActiveSolver::Dijkstra(s) => s.path(),
            ActiveSolver::Greedy(s) => s.path(),
            ActiveSolver::AStar(s) => s.path(),
        }
    }

    proof fn lemma_fuel(&self, maze: &Maze) {
        match self {
            ActiveSolver::DFS(s) => s.lemma_fuel(maze),
            ActiveSolver::BFS(s) => s.lemma_fuel(maze),
            ActiveSolver::Dijkstra(s) => s.lemma_fuel(maze),
            ActiveSolver::Greedy(s) => s.lemma_fuel(maze),
            ActiveSolver::AStar(s) => s.lemma_fuel(maze),
        }
    }

    proof fn lemma_way(&self, maze: &Maze) {
        match self {
            ActiveSolver::DFS(s) => s.lemma_way(maze),
            ActiveSolver::BFS(s) => s.lemma_way(maze),
            ActiveSolver::Dijkstra(s) => s.lemma_way(maze),
            ActiveSolver::Greedy(s) => s.lemma_way(maze),
            ActiveSolver::AStar(s) => s.lemma_way(maze),
        }
    }

    proof fn lemma_frontier(&self, maze: &Maze) {
        match self {
            ActiveSolver::DFS(s) => s.lemma_frontier(maze),
            ActiveSolver::BFS(s) => s.lemma_frontier(maze),
            ActiveSolver::Dijkstra(s) => s.lemma_frontier(maze),
            ActiveSolver::Greedy(s) => s.lemma_frontier(maze),
            ActiveSolver::AStar(s) => s.lemma_frontier(maze),
        }
    }

    proof fn lemma_explored(&self, maze: &Maze, c: Coord) {
        match self {
            ActiveSolver::DFS(s) => s.lemma_explored(maze, c),
            ActiveSolver::BFS(s) => s.lemma_explored(maze, c),
            ActiveSolver::Dijkstra(s) => s.lemma_explored(maze, c),
            ActiveSolver::Greedy(s) => s.lemma_explored(maze, c),
            ActiveSolver::AStar(s) => s.lemma_explored(maze, c),
        }
    }

    proof fn lemma_shortest(&self, maze: &Maze, walk: Seq<Coord>) {
        match self {
            ActiveSolver::DFS(s) => s.lemma_shortest(maze, walk),
            ActiveSolver::BFS(s) => s.lemma_shortest(maze, walk),
            ActiveSolver::Dijkstra(s) => s.lemma_shortest(maze, walk),
            ActiveSolver::Greedy(s) => s.lemma_shortest(maze, walk),
            ActiveSolver::AStar(s) => s.lemma_shortest(maze, walk),
        }
    }

    fn tick(&mut self, maze: &mut Maze) -> (r: Result<(), Error>) {
        match self {
            ActiveSolver::DFS(s) => s.tick(maze),
            ActiveSolver::BFS(s) => s.tick(maze),
            ActiveSolver::Dijkstra(s) => s.tick(maze),
            ActiveSolver::Greedy(s) => s.tick(maze),
            ActiveSolver::AStar(s) => s.tick(maze),
        }
    }
}

} // verus!
