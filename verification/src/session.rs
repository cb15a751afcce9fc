use rand::StdRng;
use vstd::prelude::*;
use crate::config::Config;
use crate::error::Error;
use crate::generator::{generate, ActiveGenerator, Generator};
use crate::graph::connected;
use crate::maze::{Coord, Maze};
use crate::passages::{perfect, steps};
use crate::solver::{solve, ActiveSolver, Solver};

verus! {

/// What a session is busy with.
pub enum Phase {
    /// The maze is being built.
    Generating(ActiveGenerator),
    /// The maze is built, and a way through it is being sought.
    Solving(ActiveSolver),
}

/// A maze on its way from a grid of walls to a solved maze: first the
/// generator that the configuration names works on it, then the solver.
pub struct Session<'a> {
    pub maze: Maze<'a>,
    pub phase: Phase,
}

impl<'a> Session<'a> {
    /// What holds of a session that nothing but its own steps has changed:
    /// while the maze is built, what holds between the ticks of the
    /// generator; after that, the maze is perfect, and what holds between
    /// the ticks of the solver.
    pub open spec fn inv(&self) -> bool {
        &&& self.maze.wf()
        &&& match self.phase {
            Phase::Generating(g) => g.wf() && g.inv(&self.maze),
            Phase::Solving(s) => s.wf() && s.inv(&self.maze) && perfect(
                self.maze.config,
                self.maze.walls@,
            ),
        }
    }

    /// The session is over: the solver stands on the end of the maze.
    pub open spec fn done(&self) -> bool {
        self.phase matches Phase::Solving(s) && s.position() == s.goal()
    }

    /// A session with a maze of standing walls, about to be built.
    pub fn new(config: &'a Config, random: &mut StdRng) -> (session: Session<'a>)
        requires
            config.wf(),
            config.width * config.height >= 2,
        ensures
            session.inv(),
            session.maze.config == config,
            session.maze.untouched(),
            session.phase is Generating,
    {
        let maze = Maze::new(config, random);
        let generator = config.generator().init(&maze, random);
        Session { maze, phase: Phase::Generating(generator) }
    }

    /// Tells whether the solver stands on the end of the maze.
    pub fn is_done(&self) -> (r: bool)
        requires
            self.inv(),
        ensures
            r == self.done(),
    {
        match &self.phase {
            Phase::Generating(_) => false,
            Phase::Solving(solver) => solver.is_done(),
        }
    }

    /// One update. While the maze is built it is one tick of the generator,
    /// or all the ticks it has left where the steps are not to be shown;
    /// once the generator is done, the marks are cleared and the solver
    /// takes over. After that an update is one tick of the solver, or all
    /// the ticks it has left where the steps are not to be shown. No
    /// update fails, takes down a wall of a finished maze, or goes back
    /// from solving to building; and an update that shows one tick of an
    /// algorithm that is not done uses up fuel of that algorithm.
    pub fn step(&mut self, random: &mut StdRng) -> (r: Result<(), Error>)
        requires
            old(self).inv(),
        ensures
            r is Ok,
            final(self).inv(),
            final(self).maze.same_grid(&old(self).maze),
            final(self).maze.walls@.subset_of(old(self).maze.walls@),
            old(self).phase is Solving ==> final(self).phase is Solving && final(self).maze.walls@
                == old(self).maze.walls@,
            match old(self).phase {
                Phase::Generating(g) => if g.done() || old(self).maze.config.no_interactive_gen {
                    &&& final(self).phase matches Phase::Solving(s) && s.position() == final(self).maze.start
                    &&& final(self).maze.explored@ == Set::<Coord>::empty()
                    &&& final(self).maze.highlight_bright@ == Set::<Coord>::empty()
                    &&& final(self).maze.highlight_medium@ == Set::<Coord>::empty()
                    &&& final(self).maze.highlight_dark@ == Set::<Coord>::empty()
                } else {
                    final(self).phase matches Phase::Generating(h) && h.fuel(&final(self).maze)
                        < g.fuel(&old(self).maze)
                },
                Phase::Solving(s) => if old(self).maze.config.no_interactive_solve {
                    final(self).done()
                } else {
                    s.position() != s.goal() ==> (final(self).phase matches Phase::Solving(t)
                        && t.fuel(&final(self).maze) < s.fuel(&old(self).maze))
                },
            },
    {
        let interactive_gen = self.maze.config.interactive_gen();
        let interactive_solve = self.maze.config.interactive_solve();
        let mut switch = false;
        match &mut self.phase {
            Phase::Generating(generator) => {
                if !interactive_gen {
                    let _ = generate(generator, &mut self.maze, random);
                }
                if generator.is_done() {
                    proof {
                        generator.lemma_done(&self.maze);
                    }
                    switch = true;
                } else {
                    let _ = generator.tick(&mut self.maze, random);
                }
            },
            Phase::Solving(solver) => {
                proof {
                    assert(connected(
                        steps(self.maze.config, self.maze.walls@),
                        self.maze.start,
                        self.maze.end,
                    ));
                }
                if !interactive_solve {
                    let _ = solve(solver, &mut self.maze);
                }
                if !solver.is_done() {
                    let _ = solver.tick(&mut self.maze);
                }
            },
        }
        if switch {
            self.maze.highlight_bright.clear();
            self.maze.highlight_medium.clear();
            self.maze.highlight_dark.clear();
            self.maze.explored.clear();
            let solver = self.maze.config.solver().init(&self.maze);
            self.phase = Phase::Solving(solver);
        }
        Ok(())
    }
}

} // verus!
