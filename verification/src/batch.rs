use rand::StdRng;
use vstd::prelude::*;
use crate::config::Config;
use crate::generator::build;
use crate::graph::is_walk;
use crate::maze::{Coord, Maze};
use crate::passages::{perfect, steps};
use crate::solver::{solve, ActiveSolver, Solver};

verus! {

/// Builds a maze and solves it in one go, with the algorithms that the
/// configuration names. The maze is perfect, no walk from its start to its
/// end is shorter than the way that the solver has found, and the marks
/// show that way.
pub fn run<'a>(config: &'a Config, random: &mut StdRng) -> (out: (Maze<'a>, ActiveSolver))
    requires
        config.wf(),
        config.width * config.height >= 2,
    ensures
        out.0.wf(),
        out.0.config == config,
        perfect(config, out.0.walls@),
        out.1.wf(),
        out.1.position() == out.0.end,
        is_walk(steps(config, out.0.walls@), out.1.way().reverse()),
        out.1.way().last() == out.0.start,
        out.1.way()[0] == out.0.end,
        out.0.highlight_bright@ == Set::<Coord>::empty().insert(out.0.end),
        out.0.highlight_medium@ == out.1.way().to_set(),
        out.0.highlight_dark@ == out.1.frontier(),
        forall|walk: Seq<Coord>|
            #[trigger] is_walk(steps(config, out.0.walls@), walk) && walk[0] == out.0.start
                && walk.last() == out.0.end ==> out.1.way().len() <= walk.len(),
{
    let mut maze = build(config, config.generator(), random);
    maze.highlight_bright.clear();
    maze.highlight_medium.clear();
    maze.highlight_dark.clear();
    maze.explored.clear();
    let mut solver = config.solver().init(&maze);
    let _ = solve(&mut solver, &mut maze);
    (maze, solver)
}

} // verus!
