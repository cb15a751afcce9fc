use vstd::prelude::*;
use crate::maze::{Coord, Wall};

verus! {

/// Everything that can go wrong while configuring, building or solving a maze.
#[derive(Debug)]
pub enum Error {
    /// Two cells were to be linked that do not share a wall inside the grid.
    NotNeighbours(Coord, Coord),
    /// A wall on the outer boundary was to be removed.
    BorderWall(Wall),
    /// A cell was looked up in a partition that does not hold it.
    MissingSet(Coord),
    /// The name given selects no generator.
    UnsupportedGenerator(String),
    /// The name given selects no solver.
    UnsupportedSolver(String),
    /// A solver ran out of cells to visit before it reached the goal.
    ImpossibleMaze,
}

impl Error {
    /// A fixed sentence for each kind of error.
    pub fn description(&self) -> (r: &'static str)
        ensures
            r@ == (match *self {
                Error::NotNeighbours(_, _) => "Two provided coordinates are not neighbours"@,
                Error::BorderWall(_) => "Tried to remove border wall"@,
                Error::MissingSet(_) => "Missing set for a given coord"@,
                Error::UnsupportedGenerator(_) => "Unsupported generator"@,
                Error::UnsupportedSolver(_) => "Unsupported solver"@,
                Error::ImpossibleMaze => "Impossible maze"@,
            }),
    {
        match *self {
            Error::NotNeighbours(_, _) => "Two provided coordinates are not neighbours",
            Error::BorderWall(_) => "Tried to remove border wall",
            Error::MissingSet(_) => "Missing set for a given coord",
            Error::UnsupportedGenerator(_) => "Unsupported generator",
            Error::UnsupportedSolver(_) => "Unsupported solver",
            Error::ImpossibleMaze => "Impossible maze",
        }
    }
}

} // verus!
