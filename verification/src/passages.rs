use vstd::prelude::*;
use crate::config::Config;
use crate::graph::{
    acyclic, connected, included, is_walk, lemma_bridge_keeps_acyclic, lemma_connected_mono,
    lemma_connected_refl, lemma_connected_step, lemma_connected_sym, lemma_connected_trans,
    lemma_split, symmetric, with_edge, without, Steps,
};
use crate::maze::Maze;
use crate::partition::renamed;
use crate::maze::{
    column_wall, lemma_column_walls_distinct, lemma_config_bounds, lemma_divided_on_lines,
    lemma_row_walls_distinct, lemma_walls_on_lines, row_wall, Coord, Direction, Wall,
};

verus! {

/// From the cell `a` one can step in the direction `d` to the cell `b`: the
/// two are neighbours, and the wall between them is down.
pub open spec fn leads(config: &Config, walls: Set<Wall>, a: Coord, d: Direction, b: Coord)
    -> bool {
    a.spec_neighbour(d, config.width, config.height) == Some(b) && !walls.contains(
        a.spec_wall(d, config),
    )
}

/// The steps that the standing walls leave between the cells of the grid.
pub open spec fn steps(config: &Config, walls: Set<Wall>) -> Steps {
    |a: Coord, b: Coord|
        a.spec_valid_coord(config.width, config.height) && (leads(
            config,
            walls,
            a,
            Direction::North,
            b,
        ) || leads(config, walls, a, Direction::East, b) || leads(
            config,
            walls,
            a,
            Direction::South,
            b,
        ) || leads(config, walls, a, Direction::West, b))
}

/// The walls between two cells that are down.
pub open spec fn removed(config: &Config, walls: Set<Wall>) -> Set<Wall> {
    Set::new(|w: Wall| config.is_inner_wall(w) && !walls.contains(w))
}

/// The cells of the grid.
pub open spec fn all_cells(config: &Config) -> Set<Coord> {
    Set::new(|c: Coord| c.spec_valid_coord(config.width, config.height))
}

/// The standing walls leave a perfect maze: a walk leads from every cell to
/// every other, one wall less than there are cells is down, and no step
/// lies on a loop.
pub open spec fn perfect(config: &Config, walls: Set<Wall>) -> bool {
    &&& forall|a: Coord, b: Coord|
        a.spec_valid_coord(config.width, config.height) && b.spec_valid_coord(
            config.width,
            config.height,
        ) ==> #[trigger] connected(steps(config, walls), a, b)
    &&& removed(config, walls).finite()
    &&& removed(config, walls).len() == config.width * config.height - 1
    &&& acyclic(steps(config, walls))
}

/// A wall bounds one cell, or two neighbours from opposite sides.
pub proof fn lemma_wall_identity(a: Coord, d: Direction, b: Coord, e: Direction, config: &Config)
    requires
        config.wf(),
        a.spec_valid_coord(config.width, config.height),
        b.spec_valid_coord(config.width, config.height),
        a.spec_wall(d, config) == b.spec_wall(e, config),
    ensures
        (a == b && d == e) || (a.spec_neighbour(d, config.width, config.height) == Some(b) && e
            == d.opposite()),
{
    lemma_walls_on_lines(a, config);
    lemma_walls_on_lines(b, config);
    let la = match d {
        Direction::North => a.y as int,
        Direction::South => a.y + 1,
        Direction::West => a.x as int,
        Direction::East => a.x + 1,
    };
    let lb = match e {
        Direction::North => b.y as int,
        Direction::South => b.y + 1,
        Direction::West => b.x as int,
        Direction::East => b.x + 1,
    };
    match d {
        Direction::North | Direction::South => {
            assert(a.spec_wall(d, config) == row_wall(a.x as int, la, config));
            match e {
                Direction::North | Direction::South => {
                    assert(b.spec_wall(e, config) == row_wall(b.x as int, lb, config));
                    lemma_row_walls_distinct(a.x as int, la, b.x as int, lb, config);
                },
                _ => {},
            }
        },
        Direction::West | Direction::East => {
            assert(a.spec_wall(d, config) == column_wall(la, a.y as int, config));
            match e {
                Direction::West | Direction::East => {
                    assert(b.spec_wall(e, config) == column_wall(lb, b.y as int, config));
                    lemma_column_walls_distinct(la, a.y as int, lb, b.y as int, config);
                },
                _ => {},
            }
        },
    }
}

/// Neighbours share the wall between them.
pub proof fn lemma_shared_wall(a: Coord, d: Direction, config: &Config)
    requires
        config.wf(),
        a.spec_valid_coord(config.width, config.height),
        a.spec_neighbour(d, config.width, config.height) is Some,
    ensures
        ({
            let b = a.spec_neighbour(d, config.width, config.height)->0;
            &&& a.spec_wall(d, config) == b.spec_wall(d.opposite(), config)
            &&& b.spec_neighbour(d.opposite(), config.width, config.height) == Some(a)
            &&& !a.spec_wall(d, config).border
            &&& config.is_inner_wall(a.spec_wall(d, config))
        }),
{
    let b = a.spec_neighbour(d, config.width, config.height)->0;
    lemma_walls_on_lines(a, config);
    lemma_walls_on_lines(b, config);
    match d {
        Direction::North | Direction::West => {
            assert(config.inner_at(a.spec_wall(d, config), b));
        },
        Direction::South | Direction::East => {
            assert(config.inner_at(a.spec_wall(d, config), a));
        },
    }
}

/// A wall of a cell that is not on the outer boundary has a neighbour of the
/// cell behind it.
pub proof fn lemma_inner_has_neighbour(c: Coord, d: Direction, config: &Config)
    requires
        config.wf(),
        c.spec_valid_coord(config.width, config.height),
        !c.spec_wall(d, config).border,
    ensures
        c.spec_neighbour(d, config.width, config.height) is Some,
{
    lemma_config_bounds(config);
}

/// The cells on either side of a wall between two cells: the cell that the
/// wall bounds to the east or south, and its neighbour there.
pub proof fn lemma_divided_inner(w: Wall, c: Coord, config: &Config) -> (d: Direction)
    requires
        config.wf(),
        c.spec_valid_coord(config.width, config.height),
        config.inner_at(w, c),
    ensures
        d == Direction::East || d == Direction::South,
        w == c.spec_wall(d, config),
        c.spec_neighbour(d, config.width, config.height) is Some,
        config.divided(w) == (c, c.spec_neighbour(d, config.width, config.height)->0),
{
    lemma_walls_on_lines(c, config);
    lemma_config_bounds(config);
    if c.x + 1 < config.width && w == c.spec_east_wall(config) {
        lemma_divided_on_lines(c.x + 1, c.y as int, config);
        Direction::East
    } else {
        lemma_divided_on_lines(c.x as int, c.y + 1, config);
        Direction::South
    }
}

/// The neighbours of a cell that no wall separates from it are the cells
/// one step from it.
pub proof fn lemma_open_neighbours(maze: &Maze, c: Coord)
    ensures
        forall|e: (Coord, Direction)| #[trigger]
            maze.spec_connected_neighbours(c).contains(e) <==> c.spec_valid_coord(
                maze.config.width,
                maze.config.height,
            ) && leads(maze.config, maze.walls@, c, e.1, e.0),
{
    let w = maze.config.width;
    let h = maze.config.height;
    let all = c.spec_neighbours(w, h);
    let open = |n: (Coord, Direction)| !maze.walls@.contains(c.spec_wall(n.1, maze.config));
    let around = maze.spec_connected_neighbours(c);
    crate::generator::lemma_neighbour_entries(c, w, h);
    assert forall|e: (Coord, Direction)| #[trigger]
        around.contains(e) <==> c.spec_valid_coord(w, h) && leads(
            maze.config,
            maze.walls@,
            c,
            e.1,
            e.0,
        ) by {
        if around.contains(e) {
            all.lemma_filter_contains_rev(open, e);
            let i = choose|i: int| 0 <= i < around.len() && around[i] == e;
            all.lemma_filter_pred(open, i);
        }
        if c.spec_valid_coord(w, h) && leads(maze.config, maze.walls@, c, e.1, e.0) {
            assert(all.contains(e));
            let i = choose|i: int| 0 <= i < all.len() && all[i] == e;
            all.lemma_filter_contains(open, i);
        }
    }
}

/// With every wall standing, no cell has a neighbour that no wall separates
/// from it.
pub proof fn lemma_walled_in(maze: &Maze, c: Coord)
    requires
        forall|w: Wall| #[trigger] maze.config.is_wall(w) ==> maze.walls@.contains(w),
    ensures
        maze.spec_connected_neighbours(c) == Seq::<(Coord, Direction)>::empty(),
{
    let around = maze.spec_connected_neighbours(c);
    lemma_open_neighbours(maze, c);
    if around.len() > 0 {
        let e = around[0];
        assert(around.contains(e));
        assert(maze.config.bounds(c.spec_wall(e.1, maze.config), c));
        assert(maze.config.is_wall(c.spec_wall(e.1, maze.config)));
    }
    assert(around =~= Seq::<(Coord, Direction)>::empty());
}

/// Every step has a step back.
pub proof fn lemma_steps_symmetric(config: &Config, walls: Set<Wall>)
    requires
        config.wf(),
    ensures
        symmetric(steps(config, walls)),
{
    let adj = steps(config, walls);
    assert forall|a: Coord, b: Coord| #[trigger] adj(a, b) implies adj(b, a) by {
        let d = if leads(config, walls, a, Direction::North, b) {
            Direction::North
        } else if leads(config, walls, a, Direction::East, b) {
            Direction::East
        } else if leads(config, walls, a, Direction::South, b) {
            Direction::South
        } else {
            Direction::West
        };
        lemma_shared_wall(a, d, config);
        assert(leads(config, walls, b, d.opposite(), a));
    }
}

/// Taking down the wall between two neighbours adds the steps between them,
/// and no others.
pub proof fn lemma_steps_after_link(config: &Config, walls: Set<Wall>, c: Coord, d: Direction)
    requires
        config.wf(),
        c.spec_valid_coord(config.width, config.height),
        c.spec_neighbour(d, config.width, config.height) is Some,
    ensures
        steps(config, walls.remove(c.spec_wall(d, config))) == with_edge(
            steps(config, walls),
            c,
            c.spec_neighbour(d, config.width, config.height)->0,
        ),
{
    let n = c.spec_neighbour(d, config.width, config.height)->0;
    let wall = c.spec_wall(d, config);
    let fewer = walls.remove(wall);
    let before = with_edge(steps(config, walls), c, n);
    let after = steps(config, fewer);
    lemma_shared_wall(c, d, config);
    assert forall|a: Coord, b: Coord| #[trigger] after(a, b) == before(a, b) by {
        if after(a, b) {
            let e = if leads(config, fewer, a, Direction::North, b) {
                Direction::North
            } else if leads(config, fewer, a, Direction::East, b) {
                Direction::East
            } else if leads(config, fewer, a, Direction::South, b) {
                Direction::South
            } else {
                Direction::West
            };
            if a.spec_wall(e, config) == wall {
                lemma_wall_identity(c, d, a, e, config);
            } else {
                assert(leads(config, walls, a, e, b));
            }
        }
        if before(a, b) {
            if a == c && b == n {
                assert(leads(config, fewer, c, d, n));
            } else if a == n && b == c {
                assert(leads(config, fewer, n, d.opposite(), c));
            } else {
                let e = if leads(config, walls, a, Direction::North, b) {
                    Direction::North
                } else if leads(config, walls, a, Direction::East, b) {
                    Direction::East
                } else if leads(config, walls, a, Direction::South, b) {
                    Direction::South
                } else {
                    Direction::West
                };
                assert(leads(config, fewer, a, e, b));
            }
        }
    }
    assert(after =~= before);
}

/// The walls that are down after one more wall between two cells has come
/// down.
pub proof fn lemma_removed_after_link(config: &Config, walls: Set<Wall>, c: Coord, d: Direction)
    requires
        config.wf(),
        c.spec_valid_coord(config.width, config.height),
        c.spec_neighbour(d, config.width, config.height) is Some,
    ensures
        removed(config, walls.remove(c.spec_wall(d, config))) == removed(config, walls).insert(
            c.spec_wall(d, config),
        ),
{
    lemma_shared_wall(c, d, config);
    assert(removed(config, walls.remove(c.spec_wall(d, config))) =~= removed(
        config,
        walls,
    ).insert(c.spec_wall(d, config)));
}

/// A walk that starts in a region that no step leaves ends in the region.
pub proof fn lemma_walk_stays(adj: Steps, region: Set<Coord>, p: Seq<Coord>)
    requires
        is_walk(adj, p),
        region.contains(p[0]),
        forall|a: Coord, b: Coord| #[trigger] adj(a, b) && region.contains(a) ==> region.contains(b),
    ensures
        region.contains(p.last()),
    decreases p.len(),
{
    if p.len() > 1 {
        let q = p.drop_last();
        assert forall|i: int| 0 <= i < q.len() - 1 implies adj(#[trigger] q[i], q[i + 1]) by {
            assert(adj(p[i], p[i + 1]));
        }
        lemma_walk_stays(adj, region, q);
        assert(adj(p[p.len() - 2], p[p.len() - 2 + 1]));
    }
}

/// The place of a cell when the grid is read row by row.
pub open spec fn index_of(c: Coord, config: &Config) -> int {
    c.y * config.width + c.x
}

/// The cells that come before the place `n` when the grid is read row by
/// row.
pub open spec fn cells_before(config: &Config, n: int) -> Set<Coord> {
    Set::new(
        |c: Coord| c.spec_valid_coord(config.width, config.height) && index_of(c, config) < n,
    )
}

/// The place of a cell of the grid is less than the number of cells.
pub proof fn lemma_index_bound(c: Coord, config: &Config)
    requires
        c.spec_valid_coord(config.width, config.height),
    ensures
        0 <= index_of(c, config) < config.width * config.height,
        0 <= c.y * config.width,
        (c.y + 1) * config.width == c.y * config.width + config.width,
{
    let w = config.width as int;
    let h = config.height as int;
    assert(0 <= c.y * w && c.y * w + c.x < w * h && (c.y + 1) * w == c.y * w + w)
        by (nonlinear_arith)
        requires
            0 <= c.x < w,
            0 <= c.y < h,
    ;
}

/// The cells of the grid, row by row.
pub fn cells(config: &Config) -> (r: Vec<Coord>)
    requires
        config.wf(),
    ensures
        r@.len() == config.width * config.height,
        forall|c: Coord|
            c.spec_valid_coord(config.width, config.height) ==> r@[#[trigger] index_of(c, config)]
                == c,
{
    let width = config.maze_width();
    let height = config.maze_height();
    let mut found: Vec<Coord> = Vec::new();
    let mut y: u32 = 0;
    proof {
        crate::maze::lemma_config_bounds(config);
    }
    while y < height
        invariant
            width == config.width,
            height == config.height,
            0 < width <= i32::MAX,
            0 < height <= i32::MAX,
            y <= height,
            found@.len() == y * width,
            forall|c: Coord|
                c.spec_valid_coord(config.width, config.height) && c.y < y ==> #[trigger] index_of(
                    c,
                    config,
                ) < found@.len() && found@[index_of(c, config)] == c,
        decreases height - y,
    {
        let mut x: u32 = 0;
        while x < width
            invariant
                width == config.width,
                height == config.height,
                0 < width <= i32::MAX,
                0 < height <= i32::MAX,
                y < height,
                x <= width,
                found@.len() == y * width + x,
                forall|c: Coord|
                    c.spec_valid_coord(config.width, config.height) && (c.y < y || (c.y == y && c.x
                        < x)) ==> #[trigger] index_of(c, config) < found@.len() && found@[index_of(
                        c,
                        config,
                    )] == c,
            decreases width - x,
        {
            found.push(Coord { x: x as i32, y: y as i32 });
            x += 1;
        }
        proof {
            assert((y + 1) * width == y * width + width) by (nonlinear_arith);
        }
        y += 1;
    }
    proof {
        assert(height * width == config.width * config.height) by (nonlinear_arith)
            requires
                width == config.width,
                height == config.height,
        ;
    }
    found
}

/// There are `n` cells before the place `n`.
pub proof fn lemma_cells_before(config: &Config, n: int)
    requires
        config.wf(),
        0 <= n <= config.width * config.height,
    ensures
        cells_before(config, n).finite(),
        cells_before(config, n).len() == n,
    decreases n,
{
    let w = config.width as int;
    let h = config.height as int;
    if n == 0 {
        assert forall|c: Coord| c.spec_valid_coord(config.width, config.height) implies index_of(
            c,
            config,
        ) >= 0 by {
            assert(c.y * w >= 0) by (nonlinear_arith)
                requires
                    c.y >= 0,
                    w >= 0,
            ;
        }
        assert(cells_before(config, n) =~= Set::<Coord>::empty());
    } else {
        lemma_cells_before(config, n - 1);
        let m = n - 1;
        vstd::arithmetic::div_mod::lemma_fundamental_div_mod(m, w);
        vstd::arithmetic::div_mod::lemma_mod_bound(m, w);
        vstd::arithmetic::div_mod::lemma_div_pos_is_pos(m, w);
        assert(m / w < h) by {
            if m / w >= h {
                assert(w * (m / w) >= w * h) by (nonlinear_arith)
                    requires
                        m / w >= h,
                        w > 0,
                ;
            }
        }
        crate::maze::lemma_config_bounds(config);
        let cell = Coord { x: (m % w) as i32, y: (m / w) as i32 };
        assert(index_of(cell, config) == m) by {
            assert(w * (m / w) == (m / w) * w) by (nonlinear_arith);
        }
        assert forall|c: Coord|
            c.spec_valid_coord(config.width, config.height) && index_of(c, config)
                == m implies c == cell by {
            vstd::arithmetic::div_mod::lemma_fundamental_div_mod_converse(
                m,
                w,
                c.y as int,
                c.x as int,
            );
        }
        assert(cells_before(config, n) =~= cells_before(config, m).insert(cell));
    }
}

/// A grid of `width` by `height` cells has `width * height` cells.
pub proof fn lemma_cell_count(config: &Config)
    requires
        config.wf(),
    ensures
        all_cells(config).finite(),
        all_cells(config).len() == config.width * config.height,
{
    let w = config.width as int;
    let h = config.height as int;
    assert(w * h >= 0) by (nonlinear_arith)
        requires
            w >= 0,
            h >= 0,
    ;
    lemma_cells_before(config, w * h);
    assert forall|c: Coord| c.spec_valid_coord(config.width, config.height) implies index_of(
        c,
        config,
    ) < w * h by {
        assert(c.y * w + c.x < w * h) by (nonlinear_arith)
            requires
                0 <= c.x < w,
                0 <= c.y < h,
        ;
    }
    assert(all_cells(config) =~= cells_before(config, w * h));
}

/// Every neighbour of a cell of the region is in the region.
pub open spec fn closed(config: &Config, region: Set<Coord>) -> bool {
    forall|c: Coord, d: Direction|
        region.contains(c) && #[trigger] c.spec_neighbour(d, config.width, config.height)
            is Some ==> region.contains(c.spec_neighbour(d, config.width, config.height)->0)
}

/// A region that holds a cell of the grid and all neighbours of its cells
/// holds the cell `t` of the grid.
pub proof fn lemma_closed_holds(config: &Config, region: Set<Coord>, root: Coord, t: Coord)
    requires
        region.contains(root),
        root.spec_valid_coord(config.width, config.height),
        t.spec_valid_coord(config.width, config.height),
        closed(config, region),
    ensures
        region.contains(t),
    decreases root.spec_manhattan_dist(t),
{
    if t != root {
        let (d, back) = if t.x > root.x {
            (Direction::East, Coord { x: (t.x - 1) as i32, y: t.y })
        } else if t.x < root.x {
            (Direction::West, Coord { x: (t.x + 1) as i32, y: t.y })
        } else if t.y > root.y {
            (Direction::South, Coord { x: t.x, y: (t.y - 1) as i32 })
        } else {
            (Direction::North, Coord { x: t.x, y: (t.y + 1) as i32 })
        };
        lemma_closed_holds(config, region, root, back);
        assert(back.spec_neighbour(d, config.width, config.height) == Some(t));
    }
}

/// A region that holds a cell of the grid and all neighbours of its cells
/// is the whole grid.
pub proof fn lemma_closed_is_all(config: &Config, region: Set<Coord>, root: Coord)
    requires
        region.contains(root),
        root.spec_valid_coord(config.width, config.height),
        region.subset_of(all_cells(config)),
        closed(config, region),
    ensures
        region == all_cells(config),
{
    assert forall|t: Coord| t.spec_valid_coord(config.width, config.height) implies region.contains(
        t,
    ) by {
        lemma_closed_holds(config, region, root, t);
    }
    assert(region =~= all_cells(config));
}

/// The walls that are down make a tree over a region of the grid: a walk
/// leads from the root to every cell of the region, no step leaves the
/// region, one wall less than the region has cells is down, and no step
/// lies on a loop.
pub open spec fn tree_over(config: &Config, walls: Set<Wall>, region: Set<Coord>, root: Coord)
    -> bool {
    &&& region.finite()
    &&& region.contains(root)
    &&& region.subset_of(all_cells(config))
    &&& forall|c: Coord| #[trigger]
        region.contains(c) ==> connected(steps(config, walls), root, c)
    &&& forall|a: Coord, b: Coord| #[trigger]
        steps(config, walls)(a, b) ==> region.contains(a) && region.contains(b)
    &&& removed(config, walls).finite()
    &&& removed(config, walls).len() + 1 == region.len()
    &&& acyclic(steps(config, walls))
}

/// With every wall standing, a single cell is a tree.
pub proof fn lemma_tree_seed(config: &Config, walls: Set<Wall>, root: Coord)
    requires
        config.wf(),
        root.spec_valid_coord(config.width, config.height),
        forall|w: Wall| config.is_wall(w) ==> walls.contains(w),
    ensures
        tree_over(config, walls, Set::<Coord>::empty().insert(root), root),
{
    let region = Set::<Coord>::empty().insert(root);
    let adj = steps(config, walls);
    lemma_no_steps(config, walls);
    crate::graph::lemma_connected_refl(adj, root);
    assert(removed(config, walls) =~= Set::<Wall>::empty()) by {
        assert forall|w: Wall| !removed(config, walls).contains(w) by {
            if config.is_inner_wall(w) {
                let c = choose|c: Coord|
                    c.spec_valid_coord(config.width, config.height) && #[trigger] config.inner_at(
                        w,
                        c,
                    );
                assert(config.bounds(w, c));
            }
        }
    }
}

/// With every wall standing there is no step.
pub proof fn lemma_no_steps(config: &Config, walls: Set<Wall>)
    requires
        forall|w: Wall| config.is_wall(w) ==> walls.contains(w),
    ensures
        forall|a: Coord, b: Coord| !(#[trigger] steps(config, walls)(a, b)),
{
    assert forall|a: Coord, b: Coord| !(#[trigger] steps(config, walls)(a, b)) by {
        if a.spec_valid_coord(config.width, config.height) {
            assert(config.bounds(a.spec_wall(Direction::North, config), a));
            assert(config.bounds(a.spec_wall(Direction::East, config), a));
            assert(config.bounds(a.spec_wall(Direction::South, config), a));
            assert(config.bounds(a.spec_wall(Direction::West, config), a));
        }
    }
}

/// A tree grows by a cell outside its region when the wall between that
/// cell and a neighbour in the region comes down.
pub proof fn lemma_tree_grows(
    config: &Config,
    walls: Set<Wall>,
    region: Set<Coord>,
    root: Coord,
    c: Coord,
    d: Direction,
)
    requires
        config.wf(),
        tree_over(config, walls, region, root),
        region.contains(c),
        c.spec_neighbour(d, config.width, config.height) is Some,
        !region.contains(c.spec_neighbour(d, config.width, config.height)->0),
    ensures
        tree_over(
            config,
            walls.remove(c.spec_wall(d, config)),
            region.insert(c.spec_neighbour(d, config.width, config.height)->0),
            root,
        ),
        walls.contains(c.spec_wall(d, config)),
{
    let n = c.spec_neighbour(d, config.width, config.height)->0;
    let wall = c.spec_wall(d, config);
    let fewer = walls.remove(wall);
    let adj = steps(config, walls);
    let more = steps(config, fewer);
    let grown = region.insert(n);
    lemma_steps_after_link(config, walls, c, d);
    lemma_removed_after_link(config, walls, c, d);
    lemma_steps_symmetric(config, walls);
    lemma_shared_wall(c, d, config);
    assert(included(adj, more));
    assert(walls.contains(wall)) by {
        if !walls.contains(wall) {
            assert(leads(config, walls, c, d, n));
            assert(adj(c, n));
        }
    }
    assert(!connected(adj, c, n)) by {
        if connected(adj, c, n) {
            let p = choose|p: Seq<Coord>| #[trigger] is_walk(adj, p) && p[0] == c && p.last() == n;
            lemma_walk_stays(adj, region, p);
        }
    }
    lemma_bridge_keeps_acyclic(adj, c, n);
    assert forall|x: Coord| #[trigger] grown.contains(x) implies connected(more, root, x) by {
        if region.contains(x) {
            lemma_connected_mono(adj, more, root, x);
        } else {
            lemma_connected_mono(adj, more, root, c);
            assert(more(c, n));
            lemma_connected_step(more, root, c, n);
        }
    }
    assert(!removed(config, walls).contains(wall));
}

/// A tree over the whole grid is a perfect maze.
pub proof fn lemma_full_tree_perfect(config: &Config, walls: Set<Wall>, root: Coord)
    requires
        config.wf(),
        tree_over(config, walls, all_cells(config), root),
    ensures
        perfect(config, walls),
{
    let adj = steps(config, walls);
    lemma_cell_count(config);
    lemma_steps_symmetric(config, walls);
    assert forall|a: Coord, b: Coord|
        a.spec_valid_coord(config.width, config.height) && b.spec_valid_coord(
            config.width,
            config.height,
        ) implies #[trigger] connected(adj, a, b) by {
        assert(all_cells(config).contains(a));
        assert(all_cells(config).contains(b));
        lemma_connected_sym(adj, root, a);
        lemma_connected_trans(adj, a, root, b);
    }
}

/// The walls that are down make a forest over the cells that are in sets:
/// two cells are in one set if and only if a walk leads from the one to the
/// other, no step touches a cell in no set, no step lies on a loop, and as
/// many walls are down as there are more cells than sets.
#[verifier::opaque]
pub open spec fn forest_over(config: &Config, walls: Set<Wall>, sets: Map<Coord, usize>) -> bool {
    let adj = steps(config, walls);
    &&& sets.dom().finite()
    &&& sets.dom().subset_of(all_cells(config))
    &&& forall|a: Coord, b: Coord|
        sets.contains_key(a) && sets.contains_key(b) ==> (sets[a] == sets[b]
            <==> #[trigger] connected(adj, a, b))
    &&& forall|a: Coord, b: Coord| #[trigger]
        adj(a, b) ==> sets.contains_key(a) && sets.contains_key(b)
    &&& acyclic(adj)
    &&& removed(config, walls).finite()
    &&& sets.values().finite()
    &&& removed(config, walls).len() + sets.values().len() == sets.dom().len()
}

/// In a forest, a step leads between two cells of one set.
pub proof fn lemma_forest_step(
    config: &Config,
    walls: Set<Wall>,
    sets: Map<Coord, usize>,
    a: Coord,
    d: Direction,
)
    requires
        forest_over(config, walls, sets),
        a.spec_valid_coord(config.width, config.height),
        a.spec_neighbour(d, config.width, config.height) is Some,
        !walls.contains(a.spec_wall(d, config)),
    ensures
        sets.contains_key(a),
        sets.contains_key(a.spec_neighbour(d, config.width, config.height)->0),
        sets[a] == sets[a.spec_neighbour(d, config.width, config.height)->0],
{
    reveal(forest_over);
    let adj = steps(config, walls);
    let b = a.spec_neighbour(d, config.width, config.height)->0;
    assert(leads(config, walls, a, d, b));
    assert(adj(a, b));
    lemma_connected_refl(adj, a);
    lemma_connected_step(adj, a, a, b);
}

/// A walk from a cell that no step touches goes nowhere.
pub proof fn lemma_lonely(adj: Steps, n: Coord, b: Coord)
    requires
        forall|x: Coord, y: Coord| #[trigger] adj(x, y) ==> x != n && y != n,
        connected(adj, n, b) || connected(adj, b, n),
    ensures
        b == n,
{
    if connected(adj, n, b) {
        let p = choose|p: Seq<Coord>| #[trigger] is_walk(adj, p) && p[0] == n && p.last() == b;
        if p.len() > 1 {
            assert(adj(p[0int], p[0int + 1]));
        }
    } else {
        let p = choose|p: Seq<Coord>| #[trigger] is_walk(adj, p) && p[0] == b && p.last() == n;
        if p.len() > 1 {
            assert(adj(p[p.len() - 2], p[p.len() - 2 + 1]));
        }
    }
}

/// The numbers of the sets after a cell has got a number.
pub proof fn lemma_values_insert(sets: Map<Coord, usize>, n: Coord, label: usize)
    requires
        !sets.contains_key(n),
    ensures
        sets.insert(n, label).values() == sets.values().insert(label),
{
    let more = sets.insert(n, label);
    assert forall|v: usize| more.values().contains(v) <==> sets.values().insert(label).contains(
        v,
    ) by {
        if more.values().contains(v) {
            let c = choose|c: Coord| #[trigger] more.contains_key(c) && more[c] == v;
            if c != n {
                assert(sets.contains_key(c) && sets[c] == v);
            }
        }
        if sets.values().contains(v) {
            let c = choose|c: Coord| #[trigger] sets.contains_key(c) && sets[c] == v;
            assert(more.contains_key(c) && more[c] == v);
        }
        if v == label {
            assert(more.contains_key(n) && more[n] == v);
        }
    }
    assert(more.values() =~= sets.values().insert(label));
}

/// With every wall standing, a single cell in a set is a forest.
pub proof fn lemma_forest_seed(config: &Config, walls: Set<Wall>, c: Coord, label: usize)
    requires
        config.wf(),
        c.spec_valid_coord(config.width, config.height),
        forall|w: Wall| #[trigger] config.is_wall(w) ==> walls.contains(w),
    ensures
        forest_over(config, walls, Map::<Coord, usize>::empty().insert(c, label)),
{
    reveal(forest_over);
    let adj = steps(config, walls);
    let sets = Map::<Coord, usize>::empty().insert(c, label);
    lemma_no_steps(config, walls);
    lemma_connected_refl(adj, c);
    assert(removed(config, walls) =~= Set::<Wall>::empty()) by {
        assert forall|w: Wall| !removed(config, walls).contains(w) by {
            if config.is_inner_wall(w) {
                let a = choose|a: Coord|
                    a.spec_valid_coord(config.width, config.height) && #[trigger] config.inner_at(
                        w,
                        a,
                    );
                assert(config.bounds(w, a));
                assert(config.is_wall(w));
            }
        }
    }
    assert(sets.dom() =~= Set::<Coord>::empty().insert(c));
    lemma_values_insert(Map::<Coord, usize>::empty(), c, label);
    assert(Map::<Coord, usize>::empty().values() =~= Set::<usize>::empty());
}

/// A forest stays a forest when a cell that is in no set gets a set of its
/// own.
pub proof fn lemma_forest_new(
    config: &Config,
    walls: Set<Wall>,
    sets: Map<Coord, usize>,
    n: Coord,
    label: usize,
)
    requires
        config.wf(),
        forest_over(config, walls, sets),
        n.spec_valid_coord(config.width, config.height),
        !sets.contains_key(n),
        !sets.values().contains(label),
    ensures
        forest_over(config, walls, sets.insert(n, label)),
{
    reveal(forest_over);
    let adj = steps(config, walls);
    let more = sets.insert(n, label);
    lemma_values_insert(sets, n, label);
    assert(more.dom() =~= sets.dom().insert(n));
    lemma_connected_refl(adj, n);
    assert forall|a: Coord, b: Coord| more.contains_key(a) && more.contains_key(b) implies (more[a]
        == more[b] <==> #[trigger] connected(adj, a, b)) by {
        if a == n || b == n {
            if connected(adj, a, b) {
                lemma_lonely(adj, n, if a == n {
                    b
                } else {
                    a
                });
            }
            if a != b {
                let other = if a == n {
                    b
                } else {
                    a
                };
                assert(sets.contains_key(other));
                assert(sets.values().contains(sets[other]));
            }
        }
    }
}

/// A forest stays a forest when a cell that is in no set is linked to a
/// neighbour and joins its set.
pub proof fn lemma_forest_attach(
    config: &Config,
    walls: Set<Wall>,
    sets: Map<Coord, usize>,
    c: Coord,
    d: Direction,
)
    requires
        config.wf(),
        forest_over(config, walls, sets),
        sets.contains_key(c),
        c.spec_neighbour(d, config.width, config.height) is Some,
        !sets.contains_key(c.spec_neighbour(d, config.width, config.height)->0),
    ensures
        forest_over(
            config,
            walls.remove(c.spec_wall(d, config)),
            sets.insert(c.spec_neighbour(d, config.width, config.height)->0, sets[c]),
        ),
        walls.contains(c.spec_wall(d, config)),
{
    reveal(forest_over);
    let n = c.spec_neighbour(d, config.width, config.height)->0;
    let wall = c.spec_wall(d, config);
    let adj = steps(config, walls);
    let more = steps(config, walls.remove(wall));
    let grown = sets.insert(n, sets[c]);
    assert(all_cells(config).contains(c));
    lemma_steps_after_link(config, walls, c, d);
    lemma_removed_after_link(config, walls, c, d);
    lemma_steps_symmetric(config, walls);
    lemma_steps_symmetric(config, walls.remove(wall));
    lemma_shared_wall(c, d, config);
    lemma_values_insert(sets, n, sets[c]);
    assert(sets.values().contains(sets[c]));
    assert(sets.values().insert(sets[c]) =~= sets.values());
    assert(grown.dom() =~= sets.dom().insert(n));
    assert(included(adj, more));
    assert(included(without(more, c, n), adj));
    assert(walls.contains(wall)) by {
        if !walls.contains(wall) {
            assert(leads(config, walls, c, d, n));
            assert(adj(c, n));
        }
    }
    assert(!connected(adj, c, n)) by {
        if connected(adj, c, n) {
            lemma_lonely(adj, n, c);
        }
    }
    lemma_bridge_keeps_acyclic(adj, c, n);
    lemma_connected_refl(more, n);
    assert forall|a: Coord, b: Coord| grown.contains_key(a) && grown.contains_key(b) implies (
    grown[a] == grown[b] <==> #[trigger] connected(more, a, b)) by {
        if grown[a] == grown[b] {
            let near = if a == n {
                c
            } else {
                a
            };
            let far = if b == n {
                c
            } else {
                b
            };
            assert(connected(adj, near, far));
            lemma_connected_mono(adj, more, near, far);
            assert(more(c, n) && more(n, c));
            if a == n {
                lemma_connected_refl(more, n);
                lemma_connected_step(more, n, n, c);
                lemma_connected_trans(more, n, c, far);
            }
            if b == n {
                if a == n {
                } else {
                    lemma_connected_step(more, a, c, n);
                }
            }
        }
        if connected(more, a, b) {
            let p = choose|p: Seq<Coord>| #[trigger] is_walk(more, p) && p[0] == a && p.last() == b;
            lemma_split(more, c, n, p);
            let cut = without(more, c, n);
            if connected(cut, a, b) {
                lemma_connected_mono(cut, adj, a, b);
                if a == n || b == n {
                    lemma_lonely(adj, n, if a == n {
                        b
                    } else {
                        a
                    });
                }
            } else if connected(cut, a, c) && connected(cut, n, b) {
                lemma_connected_mono(cut, adj, a, c);
                lemma_connected_mono(cut, adj, n, b);
                lemma_lonely(adj, n, b);
                if a == n {
                    lemma_lonely(adj, n, c);
                }
            } else {
                lemma_connected_mono(cut, adj, a, n);
                lemma_connected_mono(cut, adj, c, b);
                lemma_lonely(adj, n, a);
                if b == n {
                    lemma_lonely(adj, n, c);
                }
            }
        }
    }
    assert(!removed(config, walls).contains(wall));
}

/// A forest stays a forest when two neighbours in different sets are linked
/// and their sets become one.
pub proof fn lemma_forest_merge(
    config: &Config,
    walls: Set<Wall>,
    sets: Map<Coord, usize>,
    c: Coord,
    d: Direction,
)
    requires
        config.wf(),
        forest_over(config, walls, sets),
        sets.contains_key(c),
        c.spec_neighbour(d, config.width, config.height) is Some,
        sets.contains_key(c.spec_neighbour(d, config.width, config.height)->0),
        sets[c] != sets[c.spec_neighbour(d, config.width, config.height)->0],
    ensures
        forest_over(
            config,
            walls.remove(c.spec_wall(d, config)),
            renamed(sets, sets[c.spec_neighbour(d, config.width, config.height)->0], sets[c]),
        ),
        walls.contains(c.spec_wall(d, config)),
        sets.values().finite(),
        renamed(
            sets,
            sets[c.spec_neighbour(d, config.width, config.height)->0],
            sets[c],
        ).values().len() == sets.values().len() - 1,
        sets.values().len() >= 2,
{
    reveal(forest_over);
    let n = c.spec_neighbour(d, config.width, config.height)->0;
    let wall = c.spec_wall(d, config);
    let adj = steps(config, walls);
    let more = steps(config, walls.remove(wall));
    let a = sets[c];
    let b = sets[n];
    let merged = renamed(sets, b, a);
    assert(all_cells(config).contains(c));
    lemma_steps_after_link(config, walls, c, d);
    lemma_removed_after_link(config, walls, c, d);
    lemma_steps_symmetric(config, walls);
    lemma_steps_symmetric(config, walls.remove(wall));
    lemma_shared_wall(c, d, config);
    assert(merged.dom() =~= sets.dom());
    assert(included(adj, more));
    assert(included(without(more, c, n), adj));
    assert(!connected(adj, c, n));
    assert(walls.contains(wall)) by {
        if !walls.contains(wall) {
            assert(leads(config, walls, c, d, n));
            assert(adj(c, n));
            lemma_connected_refl(adj, c);
            lemma_connected_step(adj, c, c, n);
        }
    }
    lemma_bridge_keeps_acyclic(adj, c, n);
    assert forall|x: Coord, y: Coord| merged.contains_key(x) && merged.contains_key(y) implies (
    merged[x] == merged[y] <==> #[trigger] connected(more, x, y)) by {
        assert(sets.contains_key(x) && sets.contains_key(y));
        if merged[x] == merged[y] {
            if sets[x] == sets[y] {
                assert(connected(adj, x, y));
                lemma_connected_mono(adj, more, x, y);
            } else {
                let (near, far) = if sets[x] == a {
                    (x, y)
                } else {
                    (y, x)
                };
                assert(connected(adj, near, c));
                assert(connected(adj, n, far));
                lemma_connected_mono(adj, more, near, c);
                lemma_connected_mono(adj, more, n, far);
                assert(more(c, n));
                lemma_connected_step(more, near, c, n);
                lemma_connected_trans(more, near, n, far);
                if near == y {
                    lemma_connected_sym(more, near, far);
                }
            }
        }
        if connected(more, x, y) {
            let p = choose|p: Seq<Coord>| #[trigger] is_walk(more, p) && p[0] == x && p.last() == y;
            lemma_split(more, c, n, p);
            let cut = without(more, c, n);
            if connected(cut, x, y) {
                lemma_connected_mono(cut, adj, x, y);
            } else if connected(cut, x, c) && connected(cut, n, y) {
                lemma_connected_mono(cut, adj, x, c);
                lemma_connected_mono(cut, adj, n, y);
                assert(connected(adj, x, c));
                assert(connected(adj, n, y));
            } else {
                lemma_connected_mono(cut, adj, x, n);
                lemma_connected_mono(cut, adj, c, y);
                assert(connected(adj, x, n));
                assert(connected(adj, c, y));
            }
        }
    }
    assert(merged.values() =~= sets.values().remove(b)) by {
        assert forall|v: usize| merged.values().contains(v) <==> sets.values().remove(b).contains(
            v,
        ) by {
            if merged.values().contains(v) {
                let z = choose|z: Coord| #[trigger] merged.contains_key(z) && merged[z] == v;
                assert(sets.contains_key(z));
                if sets[z] == b {
                    assert(sets.contains_key(c));
                }
            }
            if sets.values().contains(v) && v != b {
                let z = choose|z: Coord| #[trigger] sets.contains_key(z) && sets[z] == v;
                assert(merged.contains_key(z) && merged[z] == v);
            }
        }
    }
    assert(sets.values().contains(b)) by {
        assert(sets.contains_key(n));
    }
    assert(sets.values().contains(a)) by {
        assert(sets.contains_key(c));
    }
    vstd::set_lib::lemma_len_subset(Set::<usize>::empty().insert(a).insert(b), sets.values());
    assert(!removed(config, walls).contains(wall));
}

/// With every wall standing, the cells of the grid, each in a set of its
/// own, are a forest.
pub proof fn lemma_forest_singletons(config: &Config, walls: Set<Wall>, sets: Map<Coord, usize>)
    requires
        config.wf(),
        forall|w: Wall| #[trigger] config.is_wall(w) ==> walls.contains(w),
        sets.dom() == all_cells(config),
        sets.is_injective(),
    ensures
        forest_over(config, walls, sets),
        sets.values().len() == config.width * config.height,
{
    reveal(forest_over);
    let adj = steps(config, walls);
    lemma_no_steps(config, walls);
    lemma_cell_count(config);
    sets.lemma_injective_values_len();
    assert forall|a: Coord, b: Coord| sets.contains_key(a) && sets.contains_key(b) implies (sets[a]
        == sets[b] <==> #[trigger] connected(adj, a, b)) by {
        if connected(adj, a, b) {
            lemma_lonely(adj, a, b);
        }
        if a == b {
            lemma_connected_refl(adj, a);
        }
    }
    assert(removed(config, walls) =~= Set::<Wall>::empty()) by {
        assert forall|v: Wall| !removed(config, walls).contains(v) by {
            if config.is_inner_wall(v) {
                let c = choose|c: Coord|
                    c.spec_valid_coord(config.width, config.height) && #[trigger] config.inner_at(
                        v,
                        c,
                    );
                assert(config.bounds(v, c));
                assert(config.is_wall(v));
            }
        }
    }
}

/// In a forest with one set at most, all cells in sets are in one set.
pub proof fn lemma_forest_one_set(
    config: &Config,
    walls: Set<Wall>,
    sets: Map<Coord, usize>,
    a: Coord,
    b: Coord,
)
    requires
        forest_over(config, walls, sets),
        sets.values().len() <= 1,
        sets.contains_key(a),
        sets.contains_key(b),
    ensures
        sets[a] == sets[b],
{
    reveal(forest_over);
    assert(sets.values().contains(sets[a]));
    assert(sets.values().contains(sets[b]));
    if sets[a] != sets[b] {
        vstd::set_lib::lemma_len_subset(
            Set::<usize>::empty().insert(sets[a]).insert(sets[b]),
            sets.values(),
        );
    }
}

/// A forest of one set over the whole grid is a perfect maze.
pub proof fn lemma_full_forest_perfect(config: &Config, walls: Set<Wall>, sets: Map<Coord, usize>)
    requires
        config.wf(),
        forest_over(config, walls, sets),
        sets.dom() == all_cells(config),
        forall|a: Coord| #[trigger] sets.contains_key(a) ==> sets[a] == sets[Coord { x: 0, y: 0 }],
    ensures
        perfect(config, walls),
{
    reveal(forest_over);
    let adj = steps(config, walls);
    let root = Coord { x: 0, y: 0 };
    lemma_cell_count(config);
    assert(all_cells(config).contains(root));
    assert(sets.contains_key(root));
    assert(sets.values() =~= Set::<usize>::empty().insert(sets[root])) by {
        assert forall|v: usize| sets.values().contains(v) implies v == sets[root] by {
            let c = choose|c: Coord| #[trigger] sets.contains_key(c) && sets[c] == v;
            assert(sets[c] == sets[root]);
        }
        assert(sets.values().contains(sets[root]));
    }
    assert forall|a: Coord, b: Coord| sets.contains_key(a) && sets.contains_key(b) implies sets[a]
        == sets[b] by {
        assert(sets[a] == sets[root] && sets[b] == sets[root]);
    }
    assert forall|a: Coord, b: Coord|
        a.spec_valid_coord(config.width, config.height) && b.spec_valid_coord(
            config.width,
            config.height,
        ) implies #[trigger] connected(adj, a, b) by {
        assert(all_cells(config).contains(a));
        assert(all_cells(config).contains(b));
        assert(sets[a] == sets[b]);
    }
}

} // verus!
