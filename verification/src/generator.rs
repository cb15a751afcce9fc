use rand::StdRng;
use std::str::FromStr;
use vstd::prelude::*;
use crate::config::Config;
use crate::error::Error;
use crate::maze::{Coord, Direction, Maze, Wall};
use crate::passages::perfect;
use crate::sets::CoordSet;
use crate::text::{lowercase, to_lowercase};

pub mod dfs;
pub mod eller;
pub mod hunt_kill;
pub mod kruskal;
pub mod prim;

pub use self::dfs::DFS;
pub use self::eller::{Eller, EllerMode, EllerOutcome, EllerState};
pub use self::hunt_kill::{HuntKill, HuntKillMode, HuntKillOutcome, HuntKillState};
pub use self::kruskal::{JoinResult, Kruskal};
pub use self::prim::Prim;

verus! {

/// The maze-building algorithms a caller can select.
#[derive(Debug, Clone, Copy, PartialEq, Eq, Structural)]
pub enum GeneratorType {
    DFS,
    Kruskal,
    Prim,
    Eller,
    HuntKill,
}

impl GeneratorType {
    /// The names by which the algorithms are selected.
    pub fn variants() -> (r: [&'static str; 5])
        ensures
            r[0]@ == "dfs"@,
            r[1]@ == "kruskal"@,
            r[2]@ == "prim"@,
            r[3]@ == "eller"@,
            r[4]@ == "hunt-kill"@,
    {
        ["dfs", "kruskal", "prim", "eller", "hunt-kill"]
    }

    /// The algorithm that a lowercase name selects.
    pub open spec fn named(name: Seq<char>) -> Option<GeneratorType> {
        if name == "dfs"@ {
            Some(GeneratorType::DFS)
        } else if name == "kruskal"@ {
            Some(GeneratorType::Kruskal)
        } else if name == "prim"@ {
            Some(GeneratorType::Prim)
        } else if name == "eller"@ {
            Some(GeneratorType::Eller)
        } else if name == "hunt-kill"@ {
            Some(GeneratorType::HuntKill)
        } else {
            None
        }
    }

    /// The algorithm that a lowercase name selects.
    pub fn from_lowercase(name: &str) -> (r: Option<GeneratorType>)
        ensures
            r == GeneratorType::named(name@),
    {
        let name = name.to_owned();
        if name == "dfs".to_owned() {
            Some(GeneratorType::DFS)
        } else if name == "kruskal".to_owned() {
            Some(GeneratorType::Kruskal)
        } else if name == "prim".to_owned() {
            Some(GeneratorType::Prim)
        } else if name == "eller".to_owned() {
            Some(GeneratorType::Eller)
        } else if name == "hunt-kill".to_owned() {
            Some(GeneratorType::HuntKill)
        } else {
            None
        }
    }

    /// The algorithm that a name selects, whatever the case of its letters.
    pub fn from_name(s: &str) -> (r: Result<GeneratorType, Error>)
        ensures
            match GeneratorType::named(lowercase(s@)) {
                Some(g) => r == Ok::<GeneratorType, Error>(g),
                None => r matches Err(Error::UnsupportedGenerator(name)) && name@ == s@,
            },
    {
        let lowered = to_lowercase(s);
        match GeneratorType::from_lowercase(lowered.as_str()) {
            Some(g) => Ok(g),
            None => Err(Error::UnsupportedGenerator(s.to_owned())),
        }
    }

    /// The algorithm of this kind, ready for its first tick on the maze.
    pub fn init(&self, maze: &Maze, random: &mut StdRng) -> (g: ActiveGenerator)
        requires
            maze.wf(),
        ensures
            g.wf(),
            maze.untouched() ==> g.inv(maze),
            match *self {
                GeneratorType::DFS => g matches ActiveGenerator::DFS(walk) && walk.current == Some(
                    maze.start,
                ) && walk.stack@ == Seq::<Coord>::empty(),
                GeneratorType::Kruskal => g matches ActiveGenerator::Kruskal(k) && {
                    &&& k.spec_walls().no_duplicates()
                    &&& forall|w: Wall|
                        k.spec_walls().contains(w) <==> maze.config.is_inner_wall(w)
                            && maze.walls@.contains(w)
                    &&& forall|c: Coord| #[trigger]
                        k.spec_sets().contains_key(c) <==> c.spec_valid_coord(
                            maze.config.width,
                            maze.config.height,
                        )
                    &&& forall|c: Coord, d: Coord|
                        k.spec_sets().contains_key(c) && k.spec_sets().contains_key(d) && c != d
                            ==> k.spec_sets()[c] != k.spec_sets()[d]
                    &&& k.spec_sets_left() == maze.config.width * maze.config.height
                },
                GeneratorType::Prim => g matches ActiveGenerator::Prim(p)
                    && p.spec_frontier().no_duplicates() && forall|w: Wall|
                    p.spec_frontier().contains(w) <==> !w.border && maze.config.bounds(
                        w,
                        maze.start,
                    ),
                GeneratorType::Eller => g matches ActiveGenerator::Eller(e) && e@ == (EllerState {
                    current: Coord { x: 0, y: 0 },
                    last_row: (maze.config.height - 1) as i32,
                    mode: EllerMode::Horizontal,
                    sets: Map::<Coord, usize>::empty().insert(Coord { x: 0, y: 0 }, 0),
                    last_set: 0,
                }),
                GeneratorType::HuntKill => g matches ActiveGenerator::HuntKill(h) && h@ == (
                HuntKillState {
                    current: Some(Coord { x: 0, y: 0 }),
                    last_completed_row: 0,
                    mode: HuntKillMode::Kill,
                }),
            },
    {
        match *self {
            GeneratorType::DFS => ActiveGenerator::DFS(DFS::new(maze)),
            GeneratorType::Kruskal => ActiveGenerator::Kruskal(Kruskal::new(maze, random)),
            GeneratorType::Prim => ActiveGenerator::Prim(Prim::new(maze)),
            GeneratorType::Eller => ActiveGenerator::Eller(Eller::new(maze)),
            GeneratorType::HuntKill => ActiveGenerator::HuntKill(HuntKill::new(maze)),
        }
    }
}

impl FromStr for GeneratorType {
    type Err = Error;

    /// The generator that a name selects, whatever the case of its letters;
    /// an unknown name comes back in the error.
    fn from_str(s: &str) -> (r: Result<GeneratorType, Error>)
        ensures
            match GeneratorType::named(lowercase(s@)) {
                Some(g) => r == Ok::<GeneratorType, Error>(g),
                None => r matches Err(Error::UnsupportedGenerator(name)) && name@ == s@,
            },
    {
        GeneratorType::from_name(s)
    }
}

/// The first entry of a list whose cell is marked, or is not marked, as
/// `want` says.
pub open spec fn first_match(list: Seq<(Coord, Direction)>, marks: Set<Coord>, want: bool) -> Option<
    (Coord, Direction),
>
    decreases list.len(),
{
    if list.len() == 0 {
        None
    } else if marks.contains(list[0].0) == want {
        Some(list[0])
    } else {
        first_match(list.drop_first(), marks, want)
    }
}

/// The neighbour of `c` in the direction `d`, if there is one and it is not
/// among the cells seen.
pub open spec fn fresh_neighbour(c: Coord, d: Direction, w: u32, h: u32, seen: Set<Coord>)
    -> Option<Coord> {
    match c.spec_neighbour(d, w, h) {
        Some(n) => if seen.contains(n) {
            None
        } else {
            Some(n)
        },
        None => None,
    }
}

/// What the first match is: an entry of the list that is marked as wanted,
/// if the list has any.
pub proof fn lemma_first_match(list: Seq<(Coord, Direction)>, marks: Set<Coord>, want: bool)
    ensures
        match first_match(list, marks, want) {
            Some(e) => list.contains(e) && marks.contains(e.0) == want,
            None => forall|e: (Coord, Direction)| #[trigger]
                list.contains(e) ==> marks.contains(e.0) != want,
        },
    decreases list.len(),
{
    if list.len() > 0 {
        if marks.contains(list[0].0) == want {
            assert(list[0] == list[0]);
        } else {
            let rest = list.drop_first();
            lemma_first_match(rest, marks, want);
            match first_match(rest, marks, want) {
                Some(e) => {
                    let i = choose|i: int| 0 <= i < rest.len() && rest[i] == e;
                    assert(list[i + 1] == e);
                },
                None => {
                    assert forall|e: (Coord, Direction)| #[trigger]
                        list.contains(e) implies marks.contains(e.0) != want by {
                        let i = choose|i: int| 0 <= i < list.len() && list[i] == e;
                        if i > 0 {
                            assert(rest[i - 1] == e);
                            assert(rest.contains(e));
                        }
                    }
                },
            }
        }
    }
}

/// Two lists with the same items, each as often, have the same members.
pub proof fn lemma_same_items<T>(a: Seq<T>, b: Seq<T>)
    requires
        a.to_multiset() == b.to_multiset(),
    ensures
        a.len() == b.len(),
        forall|x: T| a.contains(x) <==> b.contains(x),
{
    vstd::seq_lib::to_multiset_len(a);
    vstd::seq_lib::to_multiset_len(b);
    assert forall|x: T| a.contains(x) <==> b.contains(x) by {
        vstd::seq_lib::to_multiset_contains(a, x);
        vstd::seq_lib::to_multiset_contains(b, x);
    }
}

/// The entries of the list of neighbours: each neighbour with the direction
/// that leads to it.
pub proof fn lemma_neighbour_entries(c: Coord, w: u32, h: u32)
    ensures
        forall|e: (Coord, Direction)| #[trigger]
            c.spec_neighbours(w, h).contains(e) <==> c.spec_neighbour(e.1, w, h) == Some(e.0),
{
    let n = c.towards(Direction::North, w, h);
    let e = c.towards(Direction::East, w, h);
    let s = c.towards(Direction::South, w, h);
    let x = c.towards(Direction::West, w, h);
    let all = c.spec_neighbours(w, h);
    assert forall|p: (Coord, Direction)| #[trigger]
        all.contains(p) <==> c.spec_neighbour(p.1, w, h) == Some(p.0) by {
        if all.contains(p) {
            let i = choose|i: int| 0 <= i < all.len() && all[i] == p;
            if i < n.len() {
                assert(n[i] == p);
            } else if i < n.len() + e.len() {
                assert(e[i - n.len()] == p);
            } else if i < n.len() + e.len() + s.len() {
                assert(s[i - n.len() - e.len()] == p);
            } else {
                assert(x[i - n.len() - e.len() - s.len()] == p);
            }
        }
        if c.spec_neighbour(p.1, w, h) == Some(p.0) {
            match p.1 {
                Direction::North => {
                    assert(n[0] == p);
                    assert(all[0] == p);
                },
                Direction::East => {
                    assert(e[0] == p);
                    assert(all[n.len() as int] == p);
                },
                Direction::South => {
                    assert(s[0] == p);
                    assert(all[(n.len() + e.len()) as int] == p);
                },
                Direction::West => {
                    assert(x[0] == p);
                    assert(all[(n.len() + e.len() + s.len()) as int] == p);
                },
            }
        }
    }
}

/// The first entry of a list whose cell is marked, or is not marked, as
/// `want` says.
pub fn find_first(list: &Vec<(Coord, Direction)>, marks: &CoordSet, want: bool) -> (r: Option<
    (Coord, Direction),
>)
    ensures
        r == first_match(list@, marks@, want),
{
    let mut i: usize = 0;
    assert(list@.skip(0) == list@);
    while i < list.len()
        invariant
            i <= list.len(),
            first_match(list@, marks@, want) == first_match(list@.skip(i as int), marks@, want),
        decreases list.len() - i,
    {
        let entry = list[i];
        if marks.contains(&entry.0) == want {
            return Some(entry);
        }
        assert(list@.skip(i as int).drop_first() == list@.skip(i + 1));
        i += 1;
    }
    None
}

/// A maze-building algorithm that a caller advances tick by tick.
pub trait Generator: Sized {
    /// What holds of the algorithm's own state between ticks.
    spec fn wf(&self) -> bool;

    /// The algorithm has nothing left to do.
    spec fn done(&self) -> bool;

    /// What holds between the ticks of an algorithm that began on a maze
    /// with every wall standing, as long as nothing else changes the walls
    /// and the explored cells of the maze.
    spec fn inv(&self, maze: &Maze) -> bool;

    /// A bound on the number of ticks that the algorithm has left.
    spec fn fuel(&self, maze: &Maze) -> int;

    /// Tells whether the algorithm has nothing left to do.
    fn is_done(&self) -> (r: bool)
        requires
            self.wf(),
        ensures
            r == self.done(),
    ;

    /// One unit of work. A tick takes down one wall at most, never one on
    /// the outer boundary, and puts up none; it forgets no explored cell;
    /// and a tick of a finished algorithm only clears the bright marks. On
    /// a maze that nothing else changes, no tick fails, and every tick of
    /// an algorithm that is not done uses up fuel.
    fn tick(&mut self, maze: &mut Maze, random: &mut StdRng) -> (r: Result<(), Error>)
        requires
            old(self).wf(),
            old(maze).wf(),
        ensures
            final(self).wf(),
            final(maze).same_grid(old(maze)),
            final(maze).walls@ == old(maze).walls@ || exists|w: Wall|
                !w.border && #[trigger] old(maze).walls@.contains(w) && final(maze).walls@ == old(
                    maze,
                ).walls@.remove(w),
            old(maze).explored@.subset_of(final(maze).explored@),
            old(self).done() ==> {
                &&& r is Ok
                &&& *final(self) == *old(self)
                &&& final(maze).walls@ == old(maze).walls@
                &&& final(maze).explored@ == old(maze).explored@
                &&& final(maze).highlight_bright@ == Set::<Coord>::empty()
                &&& final(maze).highlight_medium@ == old(maze).highlight_medium@
                &&& final(maze).highlight_dark@ == old(maze).highlight_dark@
            },
            old(self).inv(old(maze)) ==> {
                &&& r is Ok
                &&& final(self).inv(final(maze))
                &&& (!old(self).done() ==> final(self).fuel(final(maze)) < old(self).fuel(
                    old(maze),
                ))
            },
    ;

    /// The fuel does not run below zero.
    proof fn lemma_fuel(&self, maze: &Maze)
        requires
            self.wf(),
            maze.wf(),
            self.inv(maze),
        ensures
            self.fuel(maze) >= 0,
    ;

    /// An algorithm that is done leaves a perfect maze: a walk leads from
    /// every cell to every other, one wall less than there are cells is
    /// down, and no step lies on a loop.
    proof fn lemma_done(&self, maze: &Maze)
        requires
            self.wf(),
            maze.wf(),
            self.inv(maze),
            self.done(),
        ensures
            perfect(maze.config, maze.walls@),
    ;
}

/// Runs an algorithm to its end. On a maze that nothing else has changed
/// since the algorithm began, this leaves a perfect maze.
pub fn generate<G: Generator>(generator: &mut G, maze: &mut Maze, random: &mut StdRng) -> (r: Result<
    (),
    Error,
>)
    requires
        old(generator).wf(),
        old(maze).wf(),
        old(generator).inv(old(maze)),
    ensures
        r is Ok,
        final(generator).wf(),
        final(generator).done(),
        final(generator).inv(final(maze)),
        final(maze).same_grid(old(maze)),
        final(maze).walls@.subset_of(old(maze).walls@),
        forall|w: Wall|
            w.border && old(maze).walls@.contains(w) ==> #[trigger] final(maze).walls@.contains(w),
        perfect(final(maze).config, final(maze).walls@),
{
    loop
        invariant
            generator.wf(),
            maze.wf(),
            generator.inv(maze),
            maze.same_grid(old(maze)),
            maze.walls@.subset_of(old(maze).walls@),
            forall|w: Wall|
                w.border && old(maze).walls@.contains(w) ==> #[trigger] maze.walls@.contains(w),
        ensures
            generator.done(),
        decreases generator.fuel(maze),
    {
        if generator.is_done() {
            break ;
        }
        proof {
            generator.lemma_fuel(maze);
        }
        let ghost before = maze.walls@;
        match generator.tick(maze, random) {
            Ok(()) => {},
            Err(e) => {
                return Err(e);
            },
        }
        proof {
            generator.lemma_fuel(maze);
        }
    }
    proof {
        generator.lemma_done(maze);
    }
    Ok(())
}

/// A perfect maze, built in one go by the algorithm of the kind given.
pub fn build<'a>(config: &'a Config, kind: GeneratorType, random: &mut StdRng) -> (maze: Maze<'a>)
    requires
        config.wf(),
        config.width * config.height >= 2,
    ensures
        maze.wf(),
        maze.config == config,
        perfect(config, maze.walls@),
        forall|w: Wall| w.border && config.is_wall(w) ==> #[trigger] maze.walls@.contains(w),
{
    let mut maze = Maze::new(config, random);
    let mut generator = kind.init(&maze, random);
    let _ = generate(&mut generator, &mut maze, random);
    maze
}

/// One of the five algorithms, with its state.
pub enum ActiveGenerator {
    DFS(DFS),
    Kruskal(Kruskal),
    Prim(Prim),
    Eller(Eller),
    HuntKill(HuntKill),
}

impl Generator for ActiveGenerator {
    open spec fn wf(&self) -> bool {
        match self {
            ActiveGenerator::DFS(g) => g.wf(),
            ActiveGenerator::Kruskal(g) => g.wf(),
            ActiveGenerator::Prim(g) => g.wf(),
            ActiveGenerator::Eller(g) => g.wf(),
            ActiveGenerator::HuntKill(g) => g.wf(),
        }
    }

    open spec fn done(&self) -> bool {
        match self {
            ActiveGenerator::DFS(g) => g.done(),
            ActiveGenerator::Kruskal(g) => g.done(),
            ActiveGenerator::Prim(g) => g.done(),
            ActiveGenerator::Eller(g) => g.done(),
            ActiveGenerator::HuntKill(g) => g.done(),
        }
    }

    open spec fn inv(&self, maze: &Maze) -> bool {
        match self {
            ActiveGenerator::DFS(g) => g.inv(maze),
            ActiveGenerator::Kruskal(g) => g.inv(maze),
            ActiveGenerator::Prim(g) => g.inv(maze),
            ActiveGenerator::Eller(g) => g.inv(maze),
            ActiveGenerator::HuntKill(g) => g.inv(maze),
        }
    }

    open spec fn fuel(&self, maze: &Maze) -> int {
        match self {
            ActiveGenerator::DFS(g) => g.fuel(maze),
            ActiveGenerator::Kruskal(g) => g.fuel(maze),
            ActiveGenerator::Prim(g) => g.fuel(maze),
            ActiveGenerator::Eller(g) => g.fuel(maze),
            ActiveGenerator::HuntKill(g) => g.fuel(maze),
        }
    }

    proof fn lemma_fuel(&self, maze: &Maze) {
        match self {
            ActiveGenerator::DFS(g) => g.lemma_fuel(maze),
            ActiveGenerator::Kruskal(g) => g.lemma_fuel(maze),
            ActiveGenerator::Prim(g) => g.lemma_fuel(maze),
            ActiveGenerator::Eller(g) => g.lemma_fuel(maze),
            ActiveGenerator::HuntKill(g) => g.lemma_fuel(maze),
        }
    }

    proof fn lemma_done(&self, maze: &Maze) {
        match self {
            ActiveGenerator::DFS(g) => g.lemma_done(maze),
            ActiveGenerator::Kruskal(g) => g.lemma_done(maze),
            ActiveGenerator::Prim(g) => g.lemma_done(maze),
            ActiveGenerator::Eller(g) => g.lemma_done(maze),
            ActiveGenerator::HuntKill(g) => g.lemma_done(maze),
        }
    }

    fn is_done(&self) -> (r: bool) {
        match self {
            ActiveGenerator::DFS(g) => g.is_done(),
            ActiveGenerator::Kruskal(g) => g.is_done(),
            ActiveGenerator::Prim(g) => g.is_done(),
            ActiveGenerator::Eller(g) => g.is_done(),
            ActiveGenerator::HuntKill(g) => g.is_done(),
        }
    }

    fn tick(&mut self, maze: &mut Maze, random: &mut StdRng) -> (r: Result<(), Error>) {
        match self {
            ActiveGenerator::DFS(g) => g.tick(maze, random),
            ActiveGenerator::Kruskal(g) => g.tick(maze, random),
            ActiveGenerator::Prim(g) => g.tick(maze, random),
            ActiveGenerator::Eller(g) => g.tick(maze, random),
            ActiveGenerator::HuntKill(g) => g.tick(maze, random),
        }
    }
}

} // verus!
