use rand::StdRng;
use vstd::prelude::*;
use crate::config::Config;
use crate::error::Error;
use crate::generator::Generator;
use crate::maze::{Coord, Direction, Maze, Wall};
use crate::passages::{
    all_cells, closed, lemma_cell_count, lemma_closed_is_all, lemma_divided_inner,
    lemma_full_tree_perfect, lemma_inner_has_neighbour, lemma_shared_wall, lemma_tree_grows,
    lemma_tree_seed, lemma_wall_identity, perfect, tree_over,
};
use crate::random::pick;

verus! {

/// The index of the first entry of a list that equals `wall`, or the length
/// of the list if there is none.
pub open spec fn position_of(list: Seq<Wall>, wall: Wall) -> int
    decreases list.len(),
{
    if list.len() == 0 {
        0
    } else if list[0] == wall {
        0
    } else {
        1 + position_of(list.drop_first(), wall)
    }
}

/// The position of a wall is the index of its first occurrence.
pub proof fn lemma_position_of(list: Seq<Wall>, wall: Wall)
    ensures
        0 <= position_of(list, wall) <= list.len(),
        position_of(list, wall) < list.len() ==> list[position_of(list, wall)] == wall,
        forall|i: int| 0 <= i < position_of(list, wall) ==> #[trigger] list[i] != wall,
        position_of(list, wall) < list.len() <==> list.contains(wall),
    decreases list.len(),
{
    if list.len() > 0 {
        if list[0] == wall {
            assert(list.contains(wall));
        } else {
            let rest = list.drop_first();
            lemma_position_of(rest, wall);
            let p = position_of(rest, wall);
            assert forall|i: int| 0 <= i < p + 1 implies #[trigger] list[i] != wall by {
                if i > 0 {
                    assert(rest[i - 1] != wall);
                }
            }
            if p < rest.len() {
                assert(list[p + 1] == wall);
                assert(list.contains(wall));
            }
            if list.contains(wall) {
                let i = choose|i: int| 0 <= i < list.len() && list[i] == wall;
                assert(rest[i - 1] == wall);
                assert(rest.contains(wall));
            }
        }
    }
}

/// The list without the first entry that equals `wall`.
pub open spec fn without(list: Seq<Wall>, wall: Wall) -> Seq<Wall> {
    if position_of(list, wall) < list.len() {
        list.remove(position_of(list, wall))
    } else {
        list
    }
}

/// The list with `w` at its end, unless `w` is the wall `skip`, stands on
/// the outer boundary, or is in the list already.
pub open spec fn with_wall(list: Seq<Wall>, w: Wall, skip: Wall) -> Seq<Wall> {
    if w == skip || w.border || list.contains(w) {
        list
    } else {
        list.push(w)
    }
}

/// The list with the walls of the cell `c` added as `with_wall` does, north,
/// east, south and west in turn.
pub open spec fn with_walls_of(list: Seq<Wall>, c: Coord, skip: Wall, config: &Config) -> Seq<
    Wall,
> {
    with_wall(
        with_wall(
            with_wall(
                with_wall(list, c.spec_north_wall(config), skip),
                c.spec_east_wall(config),
                skip,
            ),
            c.spec_south_wall(config),
            skip,
        ),
        c.spec_west_wall(config),
        skip,
    )
}

/// The index of the first entry of a list that equals `wall`.
pub fn find_wall(list: &Vec<Wall>, wall: &Wall) -> (r: Option<usize>)
    ensures
        match r {
            Some(i) => i == position_of(list@, *wall) && i < list@.len(),
            None => position_of(list@, *wall) == list@.len(),
        },
{
    let mut i: usize = 0;
    assert(list@.skip(0) == list@);
    while i < list.len()
        invariant
            i <= list.len(),
            position_of(list@, *wall) == i + position_of(list@.skip(i as int), *wall),
        decreases list.len() - i,
    {
        if list[i] == *wall {
            return Some(i);
        }
        assert(list@.skip(i as int).drop_first() == list@.skip(i + 1));
        i += 1;
    }
    None
}

/// A list of distinct walls, none of them on the outer boundary.
pub open spec fn distinct_inner(list: Seq<Wall>) -> bool {
    &&& list.no_duplicates()
    &&& forall|i: int| 0 <= i < list.len() ==> !(#[trigger] list[i]).border
}

/// Taking an entry out of a list of distinct inner walls leaves such a list.
pub proof fn lemma_without_distinct(list: Seq<Wall>, wall: Wall)
    requires
        distinct_inner(list),
    ensures
        distinct_inner(without(list, wall)),
        !without(list, wall).contains(wall),
        forall|w: Wall| w != wall ==> (without(list, wall).contains(w) <==> list.contains(w)),
{
    lemma_position_of(list, wall);
    let p = position_of(list, wall);
    let rest = without(list, wall);
    if p < list.len() {
        list.remove_ensures(p);
        assert forall|i: int, j: int| 0 <= i < rest.len() && 0 <= j < rest.len() && i != j implies rest[i]
            != rest[j] by {
            let a = if i < p {
                i
            } else {
                i + 1
            };
            let b = if j < p {
                j
            } else {
                j + 1
            };
            assert(rest[i] == list[a] && rest[j] == list[b]);
        }
        assert forall|i: int| 0 <= i < rest.len() implies !(#[trigger] rest[i]).border by {
            let a = if i < p {
                i
            } else {
                i + 1
            };
            assert(rest[i] == list[a]);
        }
        if rest.contains(wall) {
            let i = choose|i: int| 0 <= i < rest.len() && rest[i] == wall;
            let a = if i < p {
                i
            } else {
                i + 1
            };
            assert(rest[i] == list[a]);
        }
        assert forall|w: Wall| w != wall implies (rest.contains(w) <==> list.contains(w)) by {
            if rest.contains(w) {
                let i = choose|i: int| 0 <= i < rest.len() && rest[i] == w;
                let a = if i < p {
                    i
                } else {
                    i + 1
                };
                assert(rest[i] == list[a]);
            }
            if list.contains(w) {
                let a = choose|a: int| 0 <= a < list.len() && list[a] == w;
                let i = if a < p {
                    a
                } else {
                    a - 1
                };
                assert(rest[i] == list[a]);
            }
        }
    }
}

/// Adding a wall as `with_wall` does leaves a list of distinct inner walls.
pub proof fn lemma_with_wall_distinct(list: Seq<Wall>, w: Wall, skip: Wall)
    requires
        distinct_inner(list),
    ensures
        distinct_inner(with_wall(list, w, skip)),
        forall|v: Wall|
            with_wall(list, w, skip).contains(v) <==> list.contains(v) || (v == w && w != skip
                && !w.border),
{
    let grown = with_wall(list, w, skip);
    assert forall|v: Wall|
        grown.contains(v) <==> list.contains(v) || (v == w && w != skip && !w.border) by {
        if grown.contains(v) {
            let i = choose|i: int| 0 <= i < grown.len() && grown[i] == v;
            if i < list.len() {
                assert(list[i] == v);
            }
        }
        if list.contains(v) {
            let i = choose|i: int| 0 <= i < list.len() && list[i] == v;
            assert(grown[i] == v);
        }
        if v == w && w != skip && !w.border && !list.contains(w) {
            assert(grown[grown.len() - 1] == v);
        }
    }
}

fn push_wall(list: &mut Vec<Wall>, w: Wall, skip: &Wall)
    ensures
        final(list)@ == with_wall(old(list)@, w, *skip),
{
    if w == *skip || !w.removable() {
        return ;
    }
    proof {
        lemma_position_of(list@, w);
    }
    if find_wall(list, &w).is_none() {
        list.push(w);
    }
}

/// Randomized Prim: the explored region grows from the start by one cell at
/// a time, through a wall picked at random among those around the region.
pub struct Prim {
    frontier: Vec<Wall>,
}

impl Prim {
    /// The walls around the explored region that are still to try.
    pub closed spec fn spec_frontier(&self) -> Seq<Wall> {
        self.frontier@
    }

    /// The cell that a wall opens up: the one side of it that is a cell of
    /// the grid not explored yet, where the other side is explored.
    pub open spec fn opens(maze: &Maze, seen: Set<Coord>, wall: Wall) -> Option<Coord> {
        let (c1, c2) = maze.config.divided(wall);
        let w = maze.config.width;
        let h = maze.config.height;
        if seen.contains(c1) && !seen.contains(c2) && c2.spec_valid_coord(w, h) {
            Some(c2)
        } else if seen.contains(c2) && !seen.contains(c1) && c1.spec_valid_coord(w, h) {
            Some(c1)
        } else {
            None
        }
    }

    /// What a tick does with the wall `wall`: the wall leaves the frontier,
    /// and where it opens up a cell, it comes down, the cell is explored,
    /// and the cell's other walls join the frontier.
    pub open spec fn stepped(
        before: &Prim,
        maze: &Maze,
        after: &Prim,
        result: &Maze,
        r: Result<(), Error>,
        wall: Wall,
    ) -> bool {
        let seen = maze.explored@.insert(maze.start);
        let rest = without(before.spec_frontier(), wall);
        &&& result.highlight_medium@ == maze.highlight_medium@
        &&& result.highlight_dark@ == maze.highlight_dark@
        &&& if wall.border {
            &&& r == Err::<(), Error>(Error::BorderWall(wall))
            &&& result.walls@ == maze.walls@
            &&& result.explored@ == seen
            &&& result.highlight_bright@ == Set::<Coord>::empty()
            &&& after.spec_frontier() == before.spec_frontier()
        } else {
            &&& r is Ok
            &&& match Prim::opens(maze, seen, wall) {
                Some(c) => {
                    &&& result.walls@ == maze.walls@.remove(wall)
                    &&& result.explored@ == seen.insert(c)
                    &&& result.highlight_bright@ == Set::<Coord>::empty().insert(c)
                    &&& after.spec_frontier() == with_walls_of(rest, c, wall, maze.config)
                },
                None => {
                    &&& result.walls@ == maze.walls@
                    &&& result.explored@ == seen
                    &&& result.highlight_bright@ == Set::<Coord>::empty()
                    &&& after.spec_frontier() == rest
                },
            }
        }
    }

    /// A tick is a function of the algorithm, the maze and the wall picked:
    /// what it comes to once, it comes to again.
    pub proof fn lemma_advance_repeats(
        before: &Prim,
        maze: &Maze,
        wall: Wall,
        first: (&Prim, &Maze, Result<(), Error>),
        second: (&Prim, &Maze, Result<(), Error>),
    )
        requires
            Prim::stepped(before, maze, first.0, first.1, first.2, wall),
            Prim::stepped(before, maze, second.0, second.1, second.2, wall),
        ensures
            first.0.spec_frontier() == second.0.spec_frontier(),
            first.1.walls@ == second.1.walls@,
            first.1.same_marks(second.1),
            first.2 == second.2,
    {
        if first.2 is Ok && second.2 is Ok {
            assert(first.2->Ok_0 == second.2->Ok_0);
        }
    }

    /// The explored region is the start alone; the walls around it are to
    /// try.
    pub fn new(maze: &Maze) -> (g: Prim)
        requires
            maze.wf(),
        ensures
            g.wf(),
            g.spec_frontier().no_duplicates(),
            forall|w: Wall|
                g.spec_frontier().contains(w) <==> !w.border && maze.config.bounds(w, maze.start),
            maze.untouched() ==> g.inv(maze),
    {
        let around = maze.walls(&maze.start);
        let mut frontier: Vec<Wall> = Vec::new();
        let mut i: usize = 0;
        while i < 4
            invariant
                i <= 4,
                frontier@.no_duplicates(),
                forall|j: int| 0 <= j < frontier@.len() ==> !(#[trigger] frontier@[j]).border,
                forall|w: Wall|
                    frontier@.contains(w) <==> !w.border && exists|j: int|
                        0 <= j < i && #[trigger] around[j] == w,
            decreases 4 - i,
        {
            let wall = around[i];
            let ghost listed = frontier@;
            proof {
                lemma_position_of(frontier@, wall);
            }
            if wall.removable() && find_wall(&frontier, &wall).is_none() {
                frontier.push(wall);
            }
            proof {
                assert forall|w: Wall|
                    frontier@.contains(w) <==> !w.border && exists|j: int|
                        0 <= j < i + 1 && #[trigger] around[j] == w by {
                    if frontier@.contains(w) {
                        let k = choose|k: int| 0 <= k < frontier@.len() && frontier@[k] == w;
                        if k < listed.len() {
                            assert(listed[k] == w);
                            assert(listed.contains(w));
                            let j = choose|j: int| 0 <= j < i && #[trigger] around[j] == w;
                            assert(around[j] == w);
                        } else {
                            assert(around[i as int] == w);
                        }
                    }
                    if !w.border && exists|j: int| 0 <= j < i + 1 && #[trigger] around[j] == w {
                        let j = choose|j: int| 0 <= j < i + 1 && #[trigger] around[j] == w;
                        if j < i {
                            assert(listed.contains(w));
                            let k = choose|k: int| 0 <= k < listed.len() && listed[k] == w;
                            assert(frontier@[k] == w);
                        } else if listed.contains(w) {
                            let k = choose|k: int| 0 <= k < listed.len() && listed[k] == w;
                            assert(frontier@[k] == w);
                        } else {
                            assert(frontier@[frontier@.len() - 1] == w);
                        }
                    }
                }
            }
            i += 1;
        }
        proof {
            assert forall|w: Wall|
                frontier@.contains(w) <==> !w.border && maze.config.bounds(w, maze.start) by {
                if frontier@.contains(w) {
                    let j = choose|j: int| 0 <= j < 4 && #[trigger] around[j] == w;
                    assert(around[j] == w);
                }
                if !w.border && maze.config.bounds(w, maze.start) {
                    if w == around[0] {
                    } else if w == around[1] {
                    } else if w == around[2] {
                    } else {
                        assert(w == around[3]);
                    }
                }
            }
        }
        proof {
            if maze.untouched() {
                Prim::lemma_inv_at_start(frontier@, maze);
            }
        }
        Prim { frontier }
    }

    /// One tick with the wall `wall` as the one picked.
    pub fn advance(&mut self, maze: &mut Maze, wall: Wall) -> (r: Result<(), Error>)
        requires
            old(self).wf(),
            old(maze).wf(),
        ensures
            final(self).wf(),
            final(maze).same_grid(old(maze)),
            final(maze).highlight_medium@ == old(maze).highlight_medium@,
            final(maze).highlight_dark@ == old(maze).highlight_dark@,
            Prim::stepped(old(self), old(maze), final(self), final(maze), r, wall),
    {
        maze.highlight_bright.clear();
        maze.explored.insert(maze.start);
        if !wall.removable() {
            return Err(Error::BorderWall(wall));
        }
        proof {
            lemma_position_of(self.frontier@, wall);
        }
        if let Some(i) = find_wall(&self.frontier, &wall) {
            self.frontier.remove(i);
        }
        assert(self.frontier@ == without(old(self).frontier@, wall));
        proof {
            lemma_without_distinct(old(self).frontier@, wall);
        }
        let (c1, c2) = maze.divided_coords(&wall);
        let seen1 = maze.explored.contains(&c1);
        let seen2 = maze.explored.contains(&c2);
        let width = maze.maze_width();
        let height = maze.maze_height();
        let fresh = if seen1 && !seen2 && c2.valid_coord(width, height) {
            c2
        } else if seen2 && !seen1 && c1.valid_coord(width, height) {
            c1
        } else {
            return Ok(());
        };
        maze.explored.insert(fresh);
        maze.highlight_bright.insert(fresh);
        match maze.remove_wall(&wall) {
            Ok(()) => {},
            Err(e) => {
                return Err(e);
            },
        }
        let around = maze.walls(&fresh);
        push_wall(&mut self.frontier, around[0], &wall);
        push_wall(&mut self.frontier, around[1], &wall);
        push_wall(&mut self.frontier, around[2], &wall);
        push_wall(&mut self.frontier, around[3], &wall);
        proof {
            let config = maze.config;
            let l0 = without(old(self).frontier@, wall);
            let l1 = with_wall(l0, fresh.spec_north_wall(config), wall);
            let l2 = with_wall(l1, fresh.spec_east_wall(config), wall);
            let l3 = with_wall(l2, fresh.spec_south_wall(config), wall);
            lemma_with_wall_distinct(l0, fresh.spec_north_wall(config), wall);
            lemma_with_wall_distinct(l1, fresh.spec_east_wall(config), wall);
            lemma_with_wall_distinct(l2, fresh.spec_south_wall(config), wall);
            lemma_with_wall_distinct(l3, fresh.spec_west_wall(config), wall);
        }
        Ok(())
    }
}

/// Adding a wall as `with_wall` does adds at most one entry.
pub proof fn lemma_with_wall_len(list: Seq<Wall>, w: Wall, skip: Wall)
    ensures
        list.len() <= with_wall(list, w, skip).len() <= list.len() + 1,
{
}

/// The frontier holds walls between cells of the grid, each once, and among
/// them every wall between a cell of the region and a cell outside it.
#[verifier::opaque]
pub open spec fn fenced(frontier: Seq<Wall>, region: Set<Coord>, config: &Config) -> bool {
    let w = config.width;
    let h = config.height;
    &&& distinct_inner(frontier)
    &&& forall|i: int| 0 <= i < frontier.len() ==> config.is_inner_wall(#[trigger] frontier[i])
    &&& forall|a: Coord, d: Direction|
        region.contains(a) && a.spec_neighbour(d, w, h) is Some && !region.contains(
            a.spec_neighbour(d, w, h)->0,
        ) ==> #[trigger] frontier.contains(a.spec_wall(d, config))
}

/// A wall of the frontier and the cells on either side of it.
pub proof fn lemma_fence_wall(
    frontier: Seq<Wall>,
    region: Set<Coord>,
    config: &Config,
    wall: Wall,
) -> (r: (Coord, Direction))
    requires
        config.wf(),
        fenced(frontier, region, config),
        frontier.contains(wall),
    ensures
        r.0.spec_valid_coord(config.width, config.height),
        r.0.spec_neighbour(r.1, config.width, config.height) is Some,
        wall == r.0.spec_wall(r.1, config),
        config.divided(wall) == (r.0, r.0.spec_neighbour(r.1, config.width, config.height)->0),
        !wall.border,
        without(frontier, wall).len() == frontier.len() - 1,
{
    reveal(fenced);
    let i = choose|i: int| 0 <= i < frontier.len() && frontier[i] == wall;
    assert(config.is_inner_wall(frontier[i]));
    let c1 = choose|c: Coord|
        c.spec_valid_coord(config.width, config.height) && #[trigger] config.inner_at(wall, c);
    let d = lemma_divided_inner(wall, c1, config);
    lemma_shared_wall(c1, d, config);
    lemma_position_of(frontier, wall);
    (c1, d)
}

/// A wall with both sides in the region, or both outside it, can leave the
/// frontier.
pub proof fn lemma_fence_closed(
    frontier: Seq<Wall>,
    region: Set<Coord>,
    config: &Config,
    c1: Coord,
    d: Direction,
)
    requires
        config.wf(),
        region.subset_of(all_cells(config)),
        fenced(frontier, region, config),
        c1.spec_valid_coord(config.width, config.height),
        c1.spec_neighbour(d, config.width, config.height) is Some,
        region.contains(c1) == region.contains(
            c1.spec_neighbour(d, config.width, config.height)->0,
        ),
    ensures
        fenced(without(frontier, c1.spec_wall(d, config)), region, config),
{
    reveal(fenced);
    let w = config.width;
    let h = config.height;
    let wall = c1.spec_wall(d, config);
    let rest = without(frontier, wall);
    lemma_without_distinct(frontier, wall);
    lemma_shared_wall(c1, d, config);
    assert forall|i: int| 0 <= i < rest.len() implies config.is_inner_wall(#[trigger] rest[i]) by {
        assert(rest.contains(rest[i]));
        assert(frontier.contains(rest[i]));
        let j = choose|j: int| 0 <= j < frontier.len() && frontier[j] == rest[i];
        assert(config.is_inner_wall(frontier[j]));
    }
    assert forall|a: Coord, e: Direction|
        region.contains(a) && a.spec_neighbour(e, w, h) is Some && !region.contains(
            a.spec_neighbour(e, w, h)->0,
        ) implies #[trigger] rest.contains(a.spec_wall(e, config)) by {
        let v = a.spec_wall(e, config);
        assert(all_cells(config).contains(a));
        assert(frontier.contains(v));
        if v == wall {
            lemma_wall_identity(c1, d, a, e, config);
        }
    }
}

/// The walls that `with_walls_of` adds are walls of the cell that are not on
/// the outer boundary, and it leaves the walls of the list in it.
pub proof fn lemma_with_walls_of(list: Seq<Wall>, c: Coord, skip: Wall, config: &Config)
    requires
        distinct_inner(list),
    ensures
        distinct_inner(with_walls_of(list, c, skip, config)),
        with_walls_of(list, c, skip, config).len() <= list.len() + 4,
        forall|v: Wall|
            #[trigger] with_walls_of(list, c, skip, config).contains(v) <==> list.contains(v) || (v
                != skip && !v.border && config.bounds(v, c)),
{
    let north = c.spec_north_wall(config);
    let east = c.spec_east_wall(config);
    let south = c.spec_south_wall(config);
    let west = c.spec_west_wall(config);
    let l1 = with_wall(list, north, skip);
    let l2 = with_wall(l1, east, skip);
    let l3 = with_wall(l2, south, skip);
    lemma_with_wall_distinct(list, north, skip);
    lemma_with_wall_distinct(l1, east, skip);
    lemma_with_wall_distinct(l2, south, skip);
    lemma_with_wall_distinct(l3, west, skip);
    lemma_with_wall_len(list, north, skip);
    lemma_with_wall_len(l1, east, skip);
    lemma_with_wall_len(l2, south, skip);
    lemma_with_wall_len(l3, west, skip);
}

/// When a wall of the frontier opens up a cell, the wall leaves the
/// frontier and the other walls of the cell join it.
pub proof fn lemma_fence_opens(
    frontier: Seq<Wall>,
    region: Set<Coord>,
    config: &Config,
    from: Coord,
    d: Direction,
)
    requires
        config.wf(),
        region.subset_of(all_cells(config)),
        fenced(frontier, region, config),
        region.contains(from),
        from.spec_neighbour(d, config.width, config.height) is Some,
        !region.contains(from.spec_neighbour(d, config.width, config.height)->0),
    ensures
        ({
            let c = from.spec_neighbour(d, config.width, config.height)->0;
            let wall = from.spec_wall(d, config);
            let after = with_walls_of(without(frontier, wall), c, wall, config);
            &&& fenced(after, region.insert(c), config)
            &&& after.len() <= frontier.len() + 3
        }),
{
    reveal(fenced);
    let w = config.width;
    let h = config.height;
    let c = from.spec_neighbour(d, w, h)->0;
    let wall = from.spec_wall(d, config);
    let rest = without(frontier, wall);
    let after = with_walls_of(rest, c, wall, config);
    let grown = region.insert(c);
    assert(all_cells(config).contains(from));
    lemma_shared_wall(from, d, config);
    assert(frontier.contains(wall));
    lemma_without_distinct(frontier, wall);
    lemma_position_of(frontier, wall);
    lemma_with_walls_of(rest, c, wall, config);
    assert forall|i: int| 0 <= i < after.len() implies config.is_inner_wall(
        #[trigger] after[i],
    ) by {
        let v = after[i];
        assert(after.contains(v));
        lemma_fence_entry(frontier, config, c, wall, v);
    }
    assert forall|a: Coord, e: Direction|
        grown.contains(a) && a.spec_neighbour(e, w, h) is Some && !grown.contains(
            a.spec_neighbour(e, w, h)->0,
        ) implies #[trigger] after.contains(a.spec_wall(e, config)) by {
        let v = a.spec_wall(e, config);
        lemma_shared_wall(a, e, config);
        assert(config.bounds(v, a));
        if v == wall {
            lemma_wall_identity(from, d, a, e, config);
        }
        if a != c {
            assert(region.contains(a));
            assert(frontier.contains(v));
            assert(rest.contains(v));
        }
    }
}

/// A wall of the frontier, or a wall of a cell of the grid that is not on
/// the outer boundary, is a wall between two cells of the grid.
pub proof fn lemma_fence_entry(frontier: Seq<Wall>, config: &Config, c: Coord, skip: Wall, v: Wall)
    requires
        config.wf(),
        c.spec_valid_coord(config.width, config.height),
        forall|i: int| 0 <= i < frontier.len() ==> config.is_inner_wall(#[trigger] frontier[i]),
        without(frontier, skip).contains(v) || (!v.border && config.bounds(v, c)),
        forall|x: Wall| x != skip ==> (without(frontier, skip).contains(x) <==> frontier.contains(x)),
        !without(frontier, skip).contains(skip),
    ensures
        config.is_inner_wall(v),
{
    if without(frontier, skip).contains(v) {
        assert(frontier.contains(v));
        let j = choose|j: int| 0 <= j < frontier.len() && frontier[j] == v;
        assert(config.is_inner_wall(frontier[j]));
    } else {
        let e = if v == c.spec_north_wall(config) {
            Direction::North
        } else if v == c.spec_east_wall(config) {
            Direction::East
        } else if v == c.spec_south_wall(config) {
            Direction::South
        } else {
            Direction::West
        };
        lemma_inner_has_neighbour(c, e, config);
        lemma_shared_wall(c, e, config);
    }
}

impl Prim {
    /// The cells the algorithm has reached: the start and the explored
    /// cells.
    pub open spec fn region(maze: &Maze) -> Set<Coord> {
        maze.explored@.insert(maze.start)
    }

    /// What holds between the ticks of the algorithm on a maze that nothing
    /// else changes: the walls that are down make a tree over the cells
    /// reached, rooted at the start; the frontier holds walls between cells
    /// of the grid, each once; every wall between a cell reached and a
    /// cell not reached is in the frontier; and the start is explored once
    /// any cell is.
    #[verifier::opaque]
    pub open spec fn holds(frontier: Seq<Wall>, maze: &Maze) -> bool {
        &&& tree_over(maze.config, maze.walls@, Prim::region(maze), maze.start)
        &&& fenced(frontier, Prim::region(maze), maze.config)
        &&& maze.explored@.contains(maze.start) || maze.explored@ == Set::<Coord>::empty()
    }

    /// A bound on the number of ticks left with the frontier given.
    pub open spec fn fuel_of(frontier: Seq<Wall>, maze: &Maze) -> int {
        5 * (maze.config.width * maze.config.height - Prim::region(maze).len()) + frontier.len()
    }

    /// The algorithm about to begin on a maze with every wall standing and
    /// nothing explored has reached a tree of one cell.
    pub proof fn lemma_inv_at_start(frontier: Seq<Wall>, maze: &Maze)
        requires
            maze.wf(),
            forall|w: Wall| #[trigger] maze.config.is_wall(w) ==> maze.walls@.contains(w),
            maze.explored@ == Set::<Coord>::empty(),
            distinct_inner(frontier),
            forall|w: Wall| frontier.contains(w) <==> !w.border && maze.config.bounds(w, maze.start),
        ensures
            Prim::holds(frontier, maze),
    {
        reveal(Prim::holds);
        reveal(fenced);
        let config = maze.config;
        lemma_tree_seed(config, maze.walls@, maze.start);
        assert forall|i: int| 0 <= i < frontier.len() implies config.is_inner_wall(
            #[trigger] frontier[i],
        ) by {
            let w = frontier[i];
            assert(frontier.contains(w));
            let d = if w == maze.start.spec_north_wall(config) {
                Direction::North
            } else if w == maze.start.spec_east_wall(config) {
                Direction::East
            } else if w == maze.start.spec_south_wall(config) {
                Direction::South
            } else {
                Direction::West
            };
            lemma_inner_has_neighbour(maze.start, d, config);
            lemma_shared_wall(maze.start, d, config);
        }
        assert forall|a: Coord, d: Direction|
            Prim::region(maze).contains(a) && a.spec_neighbour(d, config.width, config.height)
                is Some implies #[trigger] frontier.contains(a.spec_wall(d, config)) by {
            lemma_shared_wall(a, d, config);
        }
    }

    /// What holds between the ticks depends on the grid, the walls and the
    /// explored cells alone.
    pub proof fn lemma_inv_frame(frontier: Seq<Wall>, maze: &Maze, other: &Maze)
        requires
            Prim::holds(frontier, maze),
            other.same_grid(maze),
            other.walls@ == maze.walls@,
            other.explored@ == maze.explored@,
        ensures
            Prim::holds(frontier, other),
    {
        reveal(Prim::holds);
    }

    /// The fuel does not run below zero.
    pub proof fn lemma_fuel_bound(frontier: Seq<Wall>, maze: &Maze)
        requires
            maze.wf(),
            Prim::holds(frontier, maze),
        ensures
            Prim::fuel_of(frontier, maze) >= 0,
    {
        reveal(Prim::holds);
        lemma_cell_count(maze.config);
        vstd::set_lib::lemma_len_subset(Prim::region(maze), all_cells(maze.config));
    }

    /// A tick keeps what holds between the ticks, does not fail, and uses
    /// up fuel.
    pub proof fn lemma_tick(
        frontier: Seq<Wall>,
        maze: &Maze,
        wall: Wall,
        after: Seq<Wall>,
        result: &Maze,
    )
        requires
            maze.wf(),
            result.same_grid(maze),
            Prim::holds(frontier, maze),
            frontier.contains(wall),
            ({
                let seen = maze.explored@.insert(maze.start);
                let rest = without(frontier, wall);
                match Prim::opens(maze, seen, wall) {
                    Some(c) => {
                        &&& result.walls@ == maze.walls@.remove(wall)
                        &&& result.explored@ == seen.insert(c)
                        &&& after == with_walls_of(rest, c, wall, maze.config)
                    },
                    None => {
                        &&& result.walls@ == maze.walls@
                        &&& result.explored@ == seen
                        &&& after == rest
                    },
                }
            }),
        ensures
            !wall.border,
            Prim::holds(after, result),
            Prim::fuel_of(after, result) < Prim::fuel_of(frontier, maze),
    {
        reveal(Prim::holds);
        let config = maze.config;
        let region = Prim::region(maze);
        let grown = Prim::region(result);
        let (c1, d) = lemma_fence_wall(frontier, region, config, wall);
        let c2 = c1.spec_neighbour(d, config.width, config.height)->0;
        lemma_shared_wall(c1, d, config);
        lemma_cell_count(config);
        vstd::set_lib::lemma_len_subset(region, all_cells(config));
        match Prim::opens(maze, region, wall) {
            Some(c) => {
                let (from, dir) = if c == c2 {
                    (c1, d)
                } else {
                    (c2, d.opposite())
                };
                assert(grown =~= region.insert(c));
                lemma_tree_grows(config, maze.walls@, region, maze.start, from, dir);
                lemma_fence_opens(frontier, region, config, from, dir);
            },
            None => {
                assert(grown =~= region);
                lemma_fence_closed(frontier, region, config, c1, d);
            },
        }
    }

    /// When the frontier is empty, the maze is perfect.
    pub proof fn lemma_done_perfect(frontier: Seq<Wall>, maze: &Maze)
        requires
            maze.wf(),
            Prim::holds(frontier, maze),
            frontier.len() == 0,
        ensures
            perfect(maze.config, maze.walls@),
            Prim::region(maze) == all_cells(maze.config),
    {
        reveal(Prim::holds);
        reveal(fenced);
        let region = Prim::region(maze);
        assert(closed(maze.config, region)) by {
            assert forall|c: Coord, d: Direction|
                region.contains(c) && #[trigger] c.spec_neighbour(
                    d,
                    maze.config.width,
                    maze.config.height,
                ) is Some implies region.contains(
                c.spec_neighbour(d, maze.config.width, maze.config.height)->0,
            ) by {
                if !region.contains(c.spec_neighbour(d, maze.config.width, maze.config.height)->0) {
                    assert(frontier.contains(c.spec_wall(d, maze.config)));
                }
            }
        }
        lemma_closed_is_all(maze.config, region, maze.start);
        lemma_full_tree_perfect(maze.config, maze.walls@, maze.start);
    }

    /// When the frontier is empty, every cell of the grid is explored.
    pub proof fn lemma_all_explored(frontier: Seq<Wall>, maze: &Maze)
        requires
            maze.wf(),
            Prim::holds(frontier, maze),
            frontier.len() == 0,
        ensures
            maze.explored@ == all_cells(maze.config),
    {
        Prim::lemma_done_perfect(frontier, maze);
        reveal(Prim::holds);
        if maze.explored@.contains(maze.start) {
            assert(Prim::region(maze) =~= maze.explored@);
        } else {
            assert(all_cells(maze.config).contains(maze.end));
            assert(Prim::region(maze).contains(maze.end));
        }
    }

    /// When the algorithm is done, every cell of the grid is explored.
    pub proof fn lemma_done_explored(&self, maze: &Maze)
        requires
            self.wf(),
            maze.wf(),
            self.inv(maze),
            self.done(),
        ensures
            maze.explored@ == all_cells(maze.config),
    {
        Prim::lemma_all_explored(self.frontier@, maze);
    }
}

impl Generator for Prim {
    closed spec fn wf(&self) -> bool {
        distinct_inner(self.frontier@)
    }

    closed spec fn done(&self) -> bool {
        self.frontier@.len() == 0
    }

    fn is_done(&self) -> (r: bool) {
        self.frontier.is_empty()
    }

    closed spec fn inv(&self, maze: &Maze) -> bool {
        Prim::holds(self.frontier@, maze)
    }

    closed spec fn fuel(&self, maze: &Maze) -> int {
        Prim::fuel_of(self.frontier@, maze)
    }

    proof fn lemma_fuel(&self, maze: &Maze) {
        Prim::lemma_fuel_bound(self.frontier@, maze);
    }

    proof fn lemma_done(&self, maze: &Maze) {
        Prim::lemma_done_perfect(self.frontier@, maze);
    }

    /// One tick: a wall of the frontier is picked at random and tried.
    fn tick(&mut self, maze: &mut Maze, random: &mut StdRng) -> (r: Result<(), Error>)
        ensures
            final(maze).highlight_medium@ == old(maze).highlight_medium@,
            final(maze).highlight_dark@ == old(maze).highlight_dark@,
            !old(self).done() ==> exists|i: int|
                0 <= i < old(self).spec_frontier().len() && Prim::stepped(
                    old(self),
                    old(maze),
                    final(self),
                    final(maze),
                    r,
                    #[trigger] old(self).spec_frontier()[i],
                ),
    {
        let wall = match pick(random, &self.frontier) {
            Some(wall) => *wall,
            None => {
                maze.highlight_bright.clear();
                proof {
                    if old(self).inv(old(maze)) {
                        Prim::lemma_inv_frame(self.frontier@, old(maze), maze);
                    }
                }
                return Ok(());
            },
        };
        proof {
            if old(self).inv(old(maze)) {
                reveal(Prim::holds);
                reveal(fenced);
            }
        }
        let r = self.advance(maze, wall);
        proof {
            let i = choose|i: int|
                0 <= i < old(self).frontier@.len() && old(self).frontier@[i] == wall;
            assert(old(self).spec_frontier()[i] == wall);
            if old(self).inv(old(maze)) {
                assert(!wall.border);
                Prim::lemma_tick(old(self).frontier@, old(maze), wall, self.frontier@, maze);
            }
        }
        r
    }
}

} // verus!
