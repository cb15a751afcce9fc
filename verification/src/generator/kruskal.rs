use rand::StdRng;
use vstd::prelude::*;
use crate::config::Config;
use crate::error::Error;
use crate::generator::{lemma_same_items, Generator};
use crate::maze::{lemma_config_bounds, lemma_filter_push, lemma_walls_on_lines, Coord, Maze, Wall};
use crate::maze::Direction;
use crate::partition::{renamed, Partition};
use crate::passages::{
    all_cells, closed, forest_over, lemma_closed_holds, lemma_divided_inner,
    lemma_forest_merge, lemma_forest_one_set, lemma_forest_singletons,
    lemma_full_forest_perfect, lemma_shared_wall, lemma_wall_identity, perfect,
};
use crate::random::shuffle;

verus! {

/// What an attempt to unite the sets of two cells came to.
#[derive(Debug, Clone, Copy, PartialEq, Eq, Structural)]
pub enum JoinResult {
    /// The two sets were distinct and are one now.
    Joined,
    /// The cells were in one set already.
    Nop,
}

/// Randomized Kruskal: the walls between cells are tried in a random order,
/// and a wall comes down where it separates two sets of linked cells.
pub struct Kruskal {
    walls: Vec<Wall>,
    sets: Partition,
    sets_left: u64,
}

impl Kruskal {
    /// The walls still to try, the last of them next.
    pub closed spec fn spec_walls(&self) -> Seq<Wall> {
        self.walls@
    }

    /// The number of the set of each cell.
    pub closed spec fn spec_sets(&self) -> Map<Coord, usize> {
        self.sets@
    }

    /// The number of sets that are left.
    pub closed spec fn spec_sets_left(&self) -> u64 {
        self.sets_left
    }

    /// The wall `w` runs between a cell of the set `a` and one of the set `b`.
    pub open spec fn crosses(sets: Map<Coord, usize>, config: &Config, w: Wall, a: usize, b: usize)
        -> bool {
        let (p, q) = config.divided(w);
        &&& sets.contains_key(p)
        &&& sets.contains_key(q)
        &&& (sets[p] == a && sets[q] == b) || (sets[p] == b && sets[q] == a)
    }

    /// The test that keeps the walls that do not run between the sets `a`
    /// and `b`.
    pub open spec fn apart(sets: Map<Coord, usize>, config: &Config, a: usize, b: usize) -> spec_fn(
        Wall,
    ) -> bool {
        |w: Wall| !Kruskal::crosses(sets, config, w, a, b)
    }

    /// A wall to the east or south of a cell is not among the walls to the
    /// east or south of the cells before it.
    pub proof fn lemma_not_listed(config: &Config, list: Seq<Wall>, c: Coord, wall: Wall)
        requires
            config.wf(),
            c.spec_valid_coord(config.width, config.height),
            config.inner_at(wall, c),
            forall|w: Wall| #[trigger]
                list.contains(w) ==> config.is_inner_wall_before(w, c.x as int, c.y as int),
        ensures
            !list.contains(wall),
    {
        if list.contains(wall) {
            let b = choose|b: Coord|
                b.spec_valid_coord(config.width, config.height) && (b.y < c.y || (b.y == c.y && b.x
                    < c.x)) && #[trigger] config.inner_at(wall, b);
            let d = lemma_divided_inner(wall, c, config);
            let e = lemma_divided_inner(wall, b, config);
            lemma_wall_identity(c, d, b, e, config);
        }
    }

    /// Every cell in a set of its own, and every standing wall between two
    /// cells in a list in random order, each wall once.
    pub fn new(maze: &Maze, random: &mut StdRng) -> (g: Kruskal)
        requires
            maze.wf(),
        ensures
            g.wf(),
            g.spec_walls().no_duplicates(),
            forall|w: Wall|
                g.spec_walls().contains(w) <==> maze.config.is_inner_wall(w)
                    && maze.walls@.contains(w),
            forall|c: Coord| #[trigger]
                g.spec_sets().contains_key(c) <==> c.spec_valid_coord(
                    maze.config.width,
                    maze.config.height,
                ),
            forall|c: Coord, d: Coord|
                g.spec_sets().contains_key(c) && g.spec_sets().contains_key(d) && c != d
                    ==> g.spec_sets()[c] != g.spec_sets()[d],
            g.spec_sets_left() == maze.config.width * maze.config.height,
            maze.untouched() ==> g.inv(maze),
    {
        let width = maze.maze_width();
        let height = maze.maze_height();
        let config = maze.config;
        let mut walls: Vec<Wall> = Vec::new();
        let mut sets = Partition::new();
        proof {
            lemma_config_bounds(config);
        }
        let mut y: u32 = 0;
        while y < height
            invariant
                config.wf(),
                config == maze.config,
                width == config.width,
                height == config.height,
                width <= i32::MAX,
                height <= i32::MAX,
                y <= height,
                sets.wf(),
                walls@.no_duplicates(),
                forall|i: int| 0 <= i < walls@.len() ==> !(#[trigger] walls@[i]).border,
                forall|w: Wall|
                    walls@.contains(w) <==> config.is_inner_wall_before(w, 0, y as int)
                        && maze.walls@.contains(w),
                forall|c: Coord| #[trigger]
                    sets@.contains_key(c) <==> c.spec_valid_coord(width, height) && c.y < y,
                forall|c: Coord| #[trigger] sets@.contains_key(c) ==> sets@[c] < sets.size(),
                forall|c: Coord, d: Coord|
                    sets@.contains_key(c) && sets@.contains_key(d) && c != d ==> sets@[c]
                        != sets@[d],
            decreases height - y,
        {
            let mut x: u32 = 0;
            while x < width
                invariant
                    config.wf(),
                    config == maze.config,
                    width == config.width,
                    height == config.height,
                    width <= i32::MAX,
                    height <= i32::MAX,
                    y < height,
                    x <= width,
                    sets.wf(),
                    walls@.no_duplicates(),
                    forall|i: int| 0 <= i < walls@.len() ==> !(#[trigger] walls@[i]).border,
                    forall|w: Wall|
                        walls@.contains(w) <==> config.is_inner_wall_before(w, x as int, y as int)
                            && maze.walls@.contains(w),
                    forall|c: Coord| #[trigger]
                        sets@.contains_key(c) <==> c.spec_valid_coord(width, height) && (c.y < y
                            || (c.y == y && c.x < x)),
                    forall|c: Coord| #[trigger] sets@.contains_key(c) ==> sets@[c] < sets.size(),
                    forall|c: Coord, d: Coord|
                        sets@.contains_key(c) && sets@.contains_key(d) && c != d ==> sets@[c]
                            != sets@[d],
                decreases width - x,
            {
                let coord = Coord { x: x as i32, y: y as i32 };
                let ghost listed = walls@;
                if x + 1 < width {
                    let east = coord.east_wall(config);
                    if east.removable() && maze.walls.contains(&east) {
                        proof {
                            Kruskal::lemma_not_listed(config, listed, coord, east);
                        }
                        walls.push(east);
                    }
                }
                let ghost with_east = walls@;
                if y + 1 < height {
                    let south = coord.south_wall(config);
                    if south.removable() && maze.walls.contains(&south) {
                        proof {
                            Kruskal::lemma_not_listed(config, listed, coord, south);
                            assert(south != coord.spec_east_wall(config));
                            assert(!with_east.contains(south)) by {
                                if with_east.contains(south) {
                                    let i = choose|i: int|
                                        0 <= i < with_east.len() && with_east[i] == south;
                                    if i < listed.len() {
                                        assert(listed[i] == south);
                                    }
                                }
                            }
                        }
                        walls.push(south);
                    }
                }
                let label = sets.len();
                let ghost sorted = sets@;
                assert(!sorted.contains_key(coord));
                sets.place(coord, label);
                proof {
                    assert(sets@ == sorted.insert(coord, label));
                    assert(sets.size() == label + 1);
                    assert forall|c: Coord| #[trigger]
                        sets@.contains_key(c) <==> c.spec_valid_coord(width, height) && (c.y < y
                            || (c.y == y && c.x < x + 1)) by {
                        if c != coord {
                            assert(sets@.contains_key(c) == sorted.contains_key(c));
                            assert(c.x != coord.x || c.y != coord.y);
                        } else {
                            assert(sets@.contains_key(c));
                        }
                    }
                    assert forall|c: Coord| #[trigger] sets@.contains_key(c) implies sets@[c]
                        < sets.size() by {
                        if c != coord {
                            assert(sorted.contains_key(c));
                        }
                    }
                    assert forall|c: Coord, d: Coord|
                        sets@.contains_key(c) && sets@.contains_key(d) && c != d implies sets@[c]
                        != sets@[d] by {
                        if c != coord {
                            assert(sorted.contains_key(c));
                        }
                        if d != coord {
                            assert(sorted.contains_key(d));
                        }
                    }
                }
                proof {
                    lemma_walls_on_lines(coord, config);
                    assert forall|w: Wall|
                        walls@.contains(w) <==> config.is_inner_wall_before(w, x + 1, y as int)
                            && maze.walls@.contains(w) by {
                        if walls@.contains(w) {
                            let i = choose|i: int| 0 <= i < walls@.len() && walls@[i] == w;
                            if i < listed.len() {
                                assert(listed[i] == w);
                                assert(listed.contains(w));
                                let c = choose|c: Coord|
                                    c.spec_valid_coord(config.width, config.height) && (c.y < y || (
                                    c.y == y && c.x < x)) && #[trigger] config.inner_at(w, c);
                                assert(config.inner_at(w, c));
                            } else {
                                assert(config.inner_at(w, coord));
                            }
                        }
                        if config.is_inner_wall_before(w, x + 1, y as int) && maze.walls@.contains(
                            w,
                        ) {
                            let c = choose|c: Coord|
                                c.spec_valid_coord(config.width, config.height) && (c.y < y || (c.y
                                    == y && c.x < x + 1)) && #[trigger] config.inner_at(w, c);
                            if c != coord {
                                assert(config.is_inner_wall_before(w, x as int, y as int));
                                assert(listed.contains(w));
                                let i = choose|i: int| 0 <= i < listed.len() && listed[i] == w;
                                assert(walls@[i] == w);
                            } else {
                                if x + 1 < width && w == coord.spec_east_wall(config) {
                                    assert(with_east[listed.len() as int] == w);
                                    assert(walls@[listed.len() as int] == w);
                                } else {
                                    assert(walls@[walls@.len() - 1] == w);
                                }
                            }
                        }
                    }
                }
                x += 1;
            }
            proof {
                assert forall|w: Wall|
                    config.is_inner_wall_before(w, width as int, y as int)
                        <==> config.is_inner_wall_before(w, 0, y + 1) by {
                    if config.is_inner_wall_before(w, width as int, y as int) {
                        let c = choose|c: Coord|
                            c.spec_valid_coord(config.width, config.height) && (c.y < y || (c.y == y
                                && c.x < width)) && #[trigger] config.inner_at(w, c);
                        assert(config.inner_at(w, c));
                    }
                    if config.is_inner_wall_before(w, 0, y + 1) {
                        let c = choose|c: Coord|
                            c.spec_valid_coord(config.width, config.height) && (c.y < y + 1 || (c.y
                                == y + 1 && c.x < 0)) && #[trigger] config.inner_at(w, c);
                        assert(config.inner_at(w, c));
                    }
                }
            }
            y += 1;
        }
        proof {
            assert forall|w: Wall|
                config.is_inner_wall_before(w, 0, height as int) <==> config.is_inner_wall(w) by {
                if config.is_inner_wall(w) {
                    let c = choose|c: Coord|
                        c.spec_valid_coord(config.width, config.height) && #[trigger] config.inner_at(
                            w,
                            c,
                        );
                    assert(config.inner_at(w, c));
                }
                if config.is_inner_wall_before(w, 0, height as int) {
                    let c = choose|c: Coord|
                        c.spec_valid_coord(config.width, config.height) && (c.y < height || (c.y
                            == height && c.x < 0)) && #[trigger] config.inner_at(w, c);
                    assert(config.inner_at(w, c));
                }
            }
        }
        let ghost listed = walls@;
        shuffle(random, &mut walls);
        proof {
            listed.lemma_multiset_has_no_duplicates();
            walls@.lemma_multiset_has_no_duplicates_conv();
            lemma_same_items(listed, walls@);
            assert forall|i: int| 0 <= i < walls@.len() implies !(#[trigger] walls@[i]).border by {
                assert(walls@.contains(walls@[i]));
                assert(listed.contains(walls@[i]));
            }
            assert(width * height <= 0x7fff_ffff * 0x7fff_ffff) by (nonlinear_arith)
                requires
                    width <= 0x7fff_ffff,
                    height <= 0x7fff_ffff,
            ;
        }
        proof {
            if maze.untouched() {
                assert forall|w: Wall| #[trigger]
                    walls@.contains(w) <==> maze.config.is_inner_wall(w) && maze.walls@.contains(
                        w,
                    ) by {
                    assert(listed.contains(w) <==> walls@.contains(w));
                }
                Kruskal::lemma_inv_at_start(walls@, sets@, maze);
            }
        }
        Kruskal { walls, sets, sets_left: (width as u64) * (height as u64) }
    }

    /// Unites the sets of two cells, unless they are in one set already.
    /// When two sets become one, the walls between them leave the list:
    /// none of them could come down any more.
    pub fn join(&mut self, c1: Coord, c2: Coord, maze: &Maze) -> (r: Result<JoinResult, Error>)
        requires
            old(self).wf(),
            maze.config.wf(),
        ensures
            final(self).wf(),
            final(self).spec_sets_left() == old(self).spec_sets_left(),
            match r {
                Ok(JoinResult::Joined) => {
                    let a = old(self).spec_sets()[c1];
                    let b = old(self).spec_sets()[c2];
                    &&& old(self).spec_sets().contains_key(c1)
                    &&& old(self).spec_sets().contains_key(c2)
                    &&& a != b
                    &&& final(self).spec_sets() == renamed(old(self).spec_sets(), b, a)
                    &&& final(self).spec_walls() == old(self).spec_walls().filter(
                        Kruskal::apart(old(self).spec_sets(), maze.config, a, b),
                    )
                },
                Ok(JoinResult::Nop) => {
                    &&& old(self).spec_sets().contains_key(c1)
                    &&& old(self).spec_sets().contains_key(c2)
                    &&& old(self).spec_sets()[c1] == old(self).spec_sets()[c2]
                    &&& final(self).spec_sets() == old(self).spec_sets()
                    &&& final(self).spec_walls() == old(self).spec_walls()
                },
                Err(e) => {
                    &&& final(self).spec_sets() == old(self).spec_sets()
                    &&& final(self).spec_walls() == old(self).spec_walls()
                    &&& if !old(self).spec_sets().contains_key(c1) {
                        e == Error::MissingSet(c1)
                    } else {
                        !old(self).spec_sets().contains_key(c2) && e == Error::MissingSet(c2)
                    }
                },
            },
    {
        let a = match self.sets.find(&c1) {
            Some(set) => set,
            None => {
                return Err(Error::MissingSet(c1));
            },
        };
        let b = match self.sets.find(&c2) {
            Some(set) => set,
            None => {
                return Err(Error::MissingSet(c2));
            },
        };
        if a == b {
            return Ok(JoinResult::Nop);
        }
        let ghost keep = Kruskal::apart(old(self).spec_sets(), maze.config, a, b);
        let mut kept: Vec<Wall> = Vec::new();
        let mut i: usize = 0;
        while i < self.walls.len()
            invariant
                i <= self.walls.len(),
                maze.config.wf(),
                *self == *old(self),
                self.wf(),
                keep == Kruskal::apart(old(self).spec_sets(), maze.config, a, b),
                kept@ == self.walls@.take(i as int).filter(keep),
                forall|j: int| 0 <= j < kept@.len() ==> !(#[trigger] kept@[j]).border,
            decreases self.walls.len() - i,
        {
            let wall = self.walls[i];
            let (p, q) = maze.divided_coords(&wall);
            let crossing = match (self.sets.find(&p), self.sets.find(&q)) {
                (Some(sp), Some(sq)) => (sp == a && sq == b) || (sp == b && sq == a),
                _ => false,
            };
            proof {
                assert(self.walls@.take(i + 1) == self.walls@.take(i as int).push(wall));
                lemma_filter_push(self.walls@.take(i as int), keep, wall);
            }
            if !crossing {
                kept.push(wall);
            }
            i += 1;
        }
        assert(self.walls@.take(self.walls.len() as int) == self.walls@);
        self.walls = kept;
        self.sets.rename(b, a);
        Ok(JoinResult::Joined)
    }

    /// What a tick does. An algorithm that is done stays as it is, and the
    /// bright marks are cleared. Any other takes the last wall off the
    /// list, and marks the cells on either side of it; it fails if one of
    /// them is in no set, leaves the wall standing if they are in one set,
    /// and else takes the wall down, unites the two sets, and strikes the
    /// other walls between them off the list.
    pub open spec fn advanced(
        before: &Kruskal,
        maze: &Maze,
        after: &Kruskal,
        result: &Maze,
        r: Result<(), Error>,
    ) -> bool {
        &&& result.highlight_medium@ == maze.highlight_medium@
        &&& result.highlight_dark@ == maze.highlight_dark@
        &&& if before.done() {
            &&& r is Ok
            &&& after.spec_walls() == before.spec_walls()
            &&& after.spec_sets() == before.spec_sets()
            &&& after.spec_sets_left() == before.spec_sets_left()
            &&& result.walls@ == maze.walls@
            &&& result.explored@ == maze.explored@
            &&& result.highlight_bright@ == Set::<Coord>::empty()
        } else {
            let wall = before.spec_walls().last();
            let rest = before.spec_walls().drop_last();
            let (c1, c2) = maze.config.divided(wall);
            let sets = before.spec_sets();
            &&& result.explored@ == maze.explored@.insert(c1).insert(c2)
            &&& result.highlight_bright@ == Set::<Coord>::empty().insert(c1).insert(c2)
            &&& if !sets.contains_key(c1) {
                &&& r == Err::<(), Error>(Error::MissingSet(c1))
                &&& result.walls@ == maze.walls@
                &&& after.spec_walls() == rest
                &&& after.spec_sets() == sets
                &&& after.spec_sets_left() == before.spec_sets_left()
            } else if !sets.contains_key(c2) {
                &&& r == Err::<(), Error>(Error::MissingSet(c2))
                &&& result.walls@ == maze.walls@
                &&& after.spec_walls() == rest
                &&& after.spec_sets() == sets
                &&& after.spec_sets_left() == before.spec_sets_left()
            } else if sets[c1] == sets[c2] {
                &&& r is Ok
                &&& result.walls@ == maze.walls@
                &&& after.spec_walls() == rest
                &&& after.spec_sets() == sets
                &&& after.spec_sets_left() == before.spec_sets_left()
            } else {
                &&& r is Ok
                &&& result.walls@ == maze.walls@.remove(wall)
                &&& !wall.border
                &&& after.spec_walls() == rest.filter(
                    Kruskal::apart(sets, maze.config, sets[c1], sets[c2]),
                )
                &&& after.spec_sets() == renamed(sets, sets[c2], sets[c1])
                &&& after.spec_sets_left() == before.spec_sets_left() - 1
            }
        }
    }

    /// A tick is a function of the algorithm and the maze: what it comes to
    /// once, it comes to again.
    pub proof fn lemma_advance_repeats(
        before: &Kruskal,
        maze: &Maze,
        first: (&Kruskal, &Maze, Result<(), Error>),
        second: (&Kruskal, &Maze, Result<(), Error>),
    )
        requires
            Kruskal::advanced(before, maze, first.0, first.1, first.2),
            Kruskal::advanced(before, maze, second.0, second.1, second.2),
        ensures
            first.0.spec_walls() == second.0.spec_walls(),
            first.0.spec_sets() == second.0.spec_sets(),
            first.0.spec_sets_left() == second.0.spec_sets_left(),
            first.1.walls@ == second.1.walls@,
            first.1.same_marks(second.1),
            first.2 == second.2,
    {
        if first.2 is Ok && second.2 is Ok {
            assert(first.2->Ok_0 == second.2->Ok_0);
        }
    }

    /// One tick with no randomness in it: the last wall of the list is
    /// tried.
    pub fn advance(&mut self, maze: &mut Maze) -> (r: Result<(), Error>)
        requires
            old(self).wf(),
            old(maze).wf(),
        ensures
            final(self).wf(),
            final(maze).same_grid(old(maze)),
            old(self).done() ==> *final(self) == *old(self),
            Kruskal::advanced(old(self), old(maze), final(self), final(maze), r),
            old(self).inv(old(maze)) ==> {
                &&& r is Ok
                &&& final(self).inv(final(maze))
                &&& (!old(self).done() ==> final(self).fuel(final(maze)) < old(self).fuel(
                    old(maze),
                ))
            },
    {
        maze.highlight_bright.clear();
        if self.is_done() {
            proof {
                if old(self).inv(old(maze)) {
                    Kruskal::lemma_inv_frame(
                        self.walls@,
                        self.sets@,
                        self.sets_left as int,
                        old(maze),
                        maze,
                    );
                }
            }
            return Ok(());
        }
        proof {
            if old(self).inv(old(maze)) {
                Kruskal::lemma_sides_known(
                    self.walls@,
                    self.sets@,
                    self.sets_left as int,
                    old(maze),
                );
            }
        }
        let ghost listed = self.walls@;
        let wall = match self.walls.pop() {
            Some(wall) => wall,
            None => {
                return Ok(());
            },
        };
        assert(!wall.border) by {
            assert(listed[listed.len() - 1] == wall);
        }
        let (c1, c2) = maze.divided_coords(&wall);

        maze.explored.insert(c1);
        maze.explored.insert(c2);
        maze.highlight_bright.insert(c1);
        maze.highlight_bright.insert(c2);

        match self.join(c1, c2, maze) {
            Err(e) => {
                return Err(e);
            },
            Ok(JoinResult::Joined) => {
                self.sets_left = self.sets_left - 1;
                match maze.remove_wall(&wall) {
                    Ok(()) => {},
                    Err(e) => {
                        return Err(e);
                    },
                }
                proof {
                    if old(self).inv(old(maze)) {
                        let sets = old(self).sets@;
                        assert(listed.drop_last() == old(self).walls@.drop_last());
                        Kruskal::lemma_joined(
                            listed,
                            sets,
                            old(self).sets_left as int,
                            old(maze),
                            maze,
                        );
                        listed.drop_last().lemma_filter_len(
                            Kruskal::apart(sets, old(maze).config, sets[c1], sets[c2]),
                        );
                    }
                }
            },
            Ok(JoinResult::Nop) => {
                proof {
                    if old(self).inv(old(maze)) {
                        Kruskal::lemma_nop(
                            listed,
                            old(self).sets@,
                            old(self).sets_left as int,
                            old(maze),
                        );
                        Kruskal::lemma_inv_frame(
                            self.walls@,
                            self.sets@,
                            self.sets_left as int,
                            old(maze),
                            maze,
                        );
                    }
                }
            },
        }

        Ok(())
    }
}

/// The list holds walls between cells of the grid, and among them every
/// wall between cells of different sets.
#[verifier::opaque]
pub open spec fn listed(list: Seq<Wall>, sets: Map<Coord, usize>, config: &Config) -> bool {
    let w = config.width;
    let h = config.height;
    &&& forall|i: int| 0 <= i < list.len() ==> config.is_inner_wall(#[trigger] list[i])
    &&& forall|a: Coord, d: Direction|
        a.spec_valid_coord(w, h) && a.spec_neighbour(d, w, h) is Some && sets[a]
            != sets[a.spec_neighbour(d, w, h)->0] ==> #[trigger] list.contains(
            a.spec_wall(d, config),
        )
}

/// The last wall of a list of walls between cells and the cells on either
/// side of it.
pub proof fn lemma_last_listed(list: Seq<Wall>, sets: Map<Coord, usize>, config: &Config) -> (r: (
    Coord,
    Direction,
))
    requires
        config.wf(),
        listed(list, sets, config),
        list.len() > 0,
    ensures
        r.0.spec_valid_coord(config.width, config.height),
        r.0.spec_neighbour(r.1, config.width, config.height) is Some,
        list.last() == r.0.spec_wall(r.1, config),
        config.divided(list.last()) == (
            r.0,
            r.0.spec_neighbour(r.1, config.width, config.height)->0,
        ),
        !list.last().border,
{
    reveal(listed);
    let wall = list.last();
    assert(config.is_inner_wall(list[list.len() - 1]));
    let c1 = choose|c: Coord|
        c.spec_valid_coord(config.width, config.height) && #[trigger] config.inner_at(wall, c);
    let d = lemma_divided_inner(wall, c1, config);
    lemma_shared_wall(c1, d, config);
    (c1, d)
}

/// A wall between two cells of one set can leave the list.
pub proof fn lemma_listed_nop(list: Seq<Wall>, sets: Map<Coord, usize>, config: &Config)
    requires
        config.wf(),
        listed(list, sets, config),
        list.len() > 0,
        ({
            let (c1, c2) = config.divided(list.last());
            sets[c1] == sets[c2]
        }),
    ensures
        listed(list.drop_last(), sets, config),
{
    let (c1, d) = lemma_last_listed(list, sets, config);
    reveal(listed);
    let w = config.width;
    let h = config.height;
    let wall = list.last();
    let rest = list.drop_last();
    assert forall|i: int| 0 <= i < rest.len() implies config.is_inner_wall(#[trigger] rest[i]) by {
        assert(rest[i] == list[i]);
    }
    assert forall|a: Coord, e: Direction|
        a.spec_valid_coord(w, h) && a.spec_neighbour(e, w, h) is Some && sets[a]
            != sets[a.spec_neighbour(e, w, h)->0] implies #[trigger] rest.contains(
        a.spec_wall(e, config),
    ) by {
        let v = a.spec_wall(e, config);
        assert(list.contains(v));
        lemma_other_wall(sets, config, c1, d, a, e);
        let i = choose|i: int| 0 <= i < list.len() && list[i] == v;
        assert(rest[i] == v);
    }
}

/// A wall between two cells of different sets is not the wall between two
/// cells of one set.
pub proof fn lemma_other_wall(
    sets: Map<Coord, usize>,
    config: &Config,
    c1: Coord,
    d: Direction,
    x: Coord,
    e: Direction,
)
    requires
        config.wf(),
        c1.spec_valid_coord(config.width, config.height),
        c1.spec_neighbour(d, config.width, config.height) is Some,
        sets[c1] == sets[c1.spec_neighbour(d, config.width, config.height)->0],
        x.spec_valid_coord(config.width, config.height),
        x.spec_neighbour(e, config.width, config.height) is Some,
        sets[x] != sets[x.spec_neighbour(e, config.width, config.height)->0],
    ensures
        x.spec_wall(e, config) != c1.spec_wall(d, config),
{
    lemma_shared_wall(x, e, config);
    lemma_shared_wall(c1, d, config);
    if x.spec_wall(e, config) == c1.spec_wall(d, config) {
        lemma_wall_identity(c1, d, x, e, config);
    }
}

/// When the sets on either side of the last wall of the list become one,
/// that wall and the other walls between the two sets can leave the list.
pub proof fn lemma_listed_joined(list: Seq<Wall>, sets: Map<Coord, usize>, config: &Config)
    requires
        config.wf(),
        listed(list, sets, config),
        list.len() > 0,
        sets.dom() == all_cells(config),
    ensures
        ({
            let (c1, c2) = config.divided(list.last());
            listed(
                list.drop_last().filter(Kruskal::apart(sets, config, sets[c1], sets[c2])),
                renamed(sets, sets[c2], sets[c1]),
                config,
            )
        }),
{
    let (c1, d) = lemma_last_listed(list, sets, config);
    reveal(listed);
    let w = config.width;
    let h = config.height;
    let wall = list.last();
    let rest = list.drop_last();
    let c2 = c1.spec_neighbour(d, w, h)->0;
    let a = sets[c1];
    let b = sets[c2];
    let keep = Kruskal::apart(sets, config, a, b);
    let kept = rest.filter(keep);
    let merged = renamed(sets, b, a);
    assert forall|i: int| 0 <= i < kept.len() implies config.is_inner_wall(#[trigger] kept[i]) by {
        assert(kept.contains(kept[i]));
        rest.lemma_filter_contains_rev(keep, kept[i]);
        let j = choose|j: int| 0 <= j < rest.len() && rest[j] == kept[i];
        assert(list[j] == kept[i]);
    }
    assert forall|x: Coord, e: Direction|
        x.spec_valid_coord(w, h) && x.spec_neighbour(e, w, h) is Some && merged[x]
            != merged[x.spec_neighbour(e, w, h)->0] implies #[trigger] kept.contains(
        x.spec_wall(e, config),
    ) by {
        let v = x.spec_wall(e, config);
        assert(all_cells(config).contains(x));
        assert(sets.contains_key(x));
        lemma_wall_stays(sets, config, c1, d, x, e);
        assert(list.contains(v));
        let i = choose|i: int| 0 <= i < list.len() && list[i] == v;
        assert(rest[i] == v);
        rest.lemma_filter_contains(keep, i);
    }
}

/// A wall between two cells that are in different sets after two sets have
/// become one is not the wall between those two sets that came down, nor
/// any other wall between them.
pub proof fn lemma_wall_stays(
    sets: Map<Coord, usize>,
    config: &Config,
    c1: Coord,
    d: Direction,
    x: Coord,
    e: Direction,
)
    requires
        config.wf(),
        sets.dom() == all_cells(config),
        c1.spec_valid_coord(config.width, config.height),
        c1.spec_neighbour(d, config.width, config.height) is Some,
        x.spec_valid_coord(config.width, config.height),
        x.spec_neighbour(e, config.width, config.height) is Some,
        ({
            let c2 = c1.spec_neighbour(d, config.width, config.height)->0;
            let merged = renamed(sets, sets[c2], sets[c1]);
            merged[x] != merged[x.spec_neighbour(e, config.width, config.height)->0]
        }),
    ensures
        ({
            let c2 = c1.spec_neighbour(d, config.width, config.height)->0;
            let v = x.spec_wall(e, config);
            &&& v != c1.spec_wall(d, config)
            &&& sets[x] != sets[x.spec_neighbour(e, config.width, config.height)->0]
            &&& Kruskal::apart(sets, config, sets[c1], sets[c2])(v)
        }),
{
    let w = config.width;
    let h = config.height;
    let c2 = c1.spec_neighbour(d, w, h)->0;
    let y = x.spec_neighbour(e, w, h)->0;
    let v = x.spec_wall(e, config);
    lemma_shared_wall(x, e, config);
    lemma_shared_wall(c1, d, config);
    assert(all_cells(config).contains(x));
    assert(all_cells(config).contains(y));
    assert(all_cells(config).contains(c1));
    assert(all_cells(config).contains(c2));
    assert(sets.contains_key(x) && sets.contains_key(y));
    if v == c1.spec_wall(d, config) {
        lemma_wall_identity(c1, d, x, e, config);
    }
    let (low, dir) = match e {
        Direction::East | Direction::South => (x, e),
        _ => (y, e.opposite()),
    };
    assert(config.inner_at(v, low));
    let dd = lemma_divided_inner(v, low, config);
    lemma_wall_identity(low, dir, low, dd, config);
}

impl Kruskal {
    /// What holds between the ticks of the algorithm on a maze that nothing
    /// else changes: the walls that are down make a forest over the cells of
    /// the grid, with as many sets as are left; and the list holds walls
    /// between cells of the grid, and among them every wall between cells
    /// of different sets.
    #[verifier::opaque]
    pub open spec fn holds(list: Seq<Wall>, sets: Map<Coord, usize>, left: int, maze: &Maze)
        -> bool {
        &&& forest_over(maze.config, maze.walls@, sets)
        &&& sets.dom() == all_cells(maze.config)
        &&& sets.values().len() == left
        &&& listed(list, sets, maze.config)
    }

    /// The algorithm about to begin on a maze with every wall standing has
    /// every cell in a set of its own.
    pub proof fn lemma_inv_at_start(list: Seq<Wall>, sets: Map<Coord, usize>, maze: &Maze)
        requires
            maze.wf(),
            forall|w: Wall| #[trigger] maze.config.is_wall(w) ==> maze.walls@.contains(w),
            forall|w: Wall| #[trigger]
                list.contains(w) <==> maze.config.is_inner_wall(w) && maze.walls@.contains(w),
            forall|c: Coord| #[trigger]
                sets.contains_key(c) <==> c.spec_valid_coord(maze.config.width, maze.config.height),
            forall|c: Coord, d: Coord|
                sets.contains_key(c) && sets.contains_key(d) && c != d ==> sets[c] != sets[d],
        ensures
            Kruskal::holds(list, sets, maze.config.width * maze.config.height, maze),
    {
        reveal(Kruskal::holds);
        reveal(listed);
        let config = maze.config;
        let w = config.width;
        let h = config.height;
        assert(sets.dom() =~= all_cells(config));
        assert(sets.is_injective());
        lemma_forest_singletons(config, maze.walls@, sets);
        assert forall|i: int| 0 <= i < list.len() implies config.is_inner_wall(
            #[trigger] list[i],
        ) by {
            assert(list.contains(list[i]));
        }
        assert forall|a: Coord, d: Direction|
            a.spec_valid_coord(w, h) && a.spec_neighbour(d, w, h)
                is Some implies #[trigger] list.contains(a.spec_wall(d, config)) by {
            let v = a.spec_wall(d, config);
            lemma_shared_wall(a, d, config);
            assert(config.bounds(v, a));
            assert(config.is_wall(v));
            assert(config.is_inner_wall(v) && maze.walls@.contains(v));
        }
    }

    /// What holds between the ticks depends on the grid and the walls
    /// alone.
    pub proof fn lemma_inv_frame(
        list: Seq<Wall>,
        sets: Map<Coord, usize>,
        left: int,
        maze: &Maze,
        other: &Maze,
    )
        requires
            Kruskal::holds(list, sets, left, maze),
            other.same_grid(maze),
            other.walls@ == maze.walls@,
        ensures
            Kruskal::holds(list, sets, left, other),
    {
        reveal(Kruskal::holds);
    }

    /// The cells on either side of the last wall of the list are in sets.
    pub proof fn lemma_sides_known(list: Seq<Wall>, sets: Map<Coord, usize>, left: int, maze: &Maze)
        requires
            maze.wf(),
            Kruskal::holds(list, sets, left, maze),
            list.len() > 0,
        ensures
            ({
                let (c1, c2) = maze.config.divided(list.last());
                sets.contains_key(c1) && sets.contains_key(c2)
            }),
    {
        reveal(Kruskal::holds);
        let config = maze.config;
        let (c1, d) = lemma_last_listed(list, sets, config);
        assert(all_cells(config).contains(c1));
        assert(all_cells(config).contains(c1.spec_neighbour(d, config.width, config.height)->0));
    }

    /// A wall of the list that is left where it is changes nothing.
    pub proof fn lemma_nop(list: Seq<Wall>, sets: Map<Coord, usize>, left: int, maze: &Maze)
        requires
            maze.wf(),
            Kruskal::holds(list, sets, left, maze),
            list.len() > 0,
            ({
                let (c1, c2) = maze.config.divided(list.last());
                sets[c1] == sets[c2]
            }),
        ensures
            Kruskal::holds(list.drop_last(), sets, left, maze),
    {
        reveal(Kruskal::holds);
        lemma_listed_nop(list, sets, maze.config);
    }

    /// Two sets that a wall of the list separates become one when the wall
    /// comes down.
    pub proof fn lemma_joined(
        list: Seq<Wall>,
        sets: Map<Coord, usize>,
        left: int,
        maze: &Maze,
        result: &Maze,
    )
        requires
            maze.wf(),
            result.same_grid(maze),
            Kruskal::holds(list, sets, left, maze),
            list.len() > 0,
            ({
                let (c1, c2) = maze.config.divided(list.last());
                &&& sets[c1] != sets[c2]
                &&& result.walls@ == maze.walls@.remove(list.last())
            }),
        ensures
            ({
                let (c1, c2) = maze.config.divided(list.last());
                Kruskal::holds(
                    list.drop_last().filter(Kruskal::apart(sets, maze.config, sets[c1], sets[c2])),
                    renamed(sets, sets[c2], sets[c1]),
                    left - 1,
                    result,
                )
            }),
            left >= 2,
    {
        reveal(Kruskal::holds);
        let config = maze.config;
        let (c1, d) = lemma_last_listed(list, sets, config);
        let c2 = c1.spec_neighbour(d, config.width, config.height)->0;
        assert(all_cells(config).contains(c1));
        assert(all_cells(config).contains(c2));
        lemma_forest_merge(config, maze.walls@, sets, c1, d);
        lemma_listed_joined(list, sets, config);
        assert(renamed(sets, sets[c2], sets[c1]).dom() =~= sets.dom());
    }

    /// When the algorithm is done, the maze is perfect.
    pub proof fn lemma_done_perfect(list: Seq<Wall>, sets: Map<Coord, usize>, left: int, maze: &Maze)
        requires
            maze.wf(),
            Kruskal::holds(list, sets, left, maze),
            list.len() == 0 || left <= 1,
        ensures
            perfect(maze.config, maze.walls@),
    {
        reveal(Kruskal::holds);
        let config = maze.config;
        let w = config.width;
        let h = config.height;
        let root = Coord { x: 0, y: 0 };
        assert(all_cells(config).contains(root));
        assert forall|x: Coord| #[trigger] sets.contains_key(x) implies sets[x] == sets[root] by {
            assert(all_cells(config).contains(x));
            if list.len() == 0 {
                let same = Set::new(|c: Coord| c.spec_valid_coord(w, h) && sets[c] == sets[root]);
                assert(closed(config, same)) by {
                    reveal(listed);
                    assert forall|c: Coord, d: Direction|
                        same.contains(c) && #[trigger] c.spec_neighbour(d, w, h)
                            is Some implies same.contains(c.spec_neighbour(d, w, h)->0) by {
                        if sets[c] != sets[c.spec_neighbour(d, w, h)->0] {
                            assert(list.contains(c.spec_wall(d, config)));
                        }
                    }
                }
                lemma_closed_holds(config, same, root, x);
            } else {
                lemma_forest_one_set(config, maze.walls@, sets, x, root);
            }
        }
        lemma_full_forest_perfect(config, maze.walls@, sets);
    }
}

impl Generator for Kruskal {
    closed spec fn wf(&self) -> bool {
        &&& self.sets.wf()
        &&& forall|i: int| 0 <= i < self.walls@.len() ==> !(#[trigger] self.walls@[i]).border
    }

    closed spec fn done(&self) -> bool {
        self.walls@.len() == 0 || self.sets_left <= 1
    }

    fn is_done(&self) -> (r: bool) {
        self.walls.is_empty() || self.sets_left <= 1
    }

    closed spec fn inv(&self, maze: &Maze) -> bool {
        Kruskal::holds(self.walls@, self.sets@, self.sets_left as int, maze)
    }

    closed spec fn fuel(&self, maze: &Maze) -> int {
        self.walls@.len() as int
    }

    proof fn lemma_fuel(&self, maze: &Maze) {
    }

    proof fn lemma_done(&self, maze: &Maze) {
        Kruskal::lemma_done_perfect(self.walls@, self.sets@, self.sets_left as int, maze);
    }

    /// One tick: the last wall of the list is tried. The walls were put in
    /// their order when the list was made, so the tick draws nothing.
    fn tick(&mut self, maze: &mut Maze, _random: &mut StdRng) -> (r: Result<(), Error>)
        ensures
            Kruskal::advanced(old(self), old(maze), final(self), final(maze), r),
    {
        self.advance(maze)
    }
}

} // verus!
