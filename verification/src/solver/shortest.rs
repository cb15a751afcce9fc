use vstd::prelude::*;
use crate::error::Error;
use crate::generator::lemma_neighbour_entries;
use crate::graph::{acyclic, connected, is_walk, lemma_simple_walk_shortest};
use crate::maze::{Coord, Direction, Maze};
use crate::passages::{
    all_cells, lemma_cell_count, lemma_steps_symmetric, lemma_walk_stays, leads, steps,
};
use crate::solver::search::{cells_of, queued, rank, Entry, Priority, Search, SearchState};
use crate::solver::trail::{chain, linked, PathNode};

verus! {

/// A node of the cell `c` has been reached.
pub open spec fn is_node(s: SearchState, c: Coord) -> bool {
    exists|i: int| 0 <= i < s.nodes.len() && (#[trigger] s.nodes[i]).coord == c
}

/// A node other than the first is the cell `c`.
pub open spec fn is_late(s: SearchState, c: Coord) -> bool {
    exists|i: int| 1 <= i < s.nodes.len() && (#[trigger] s.nodes[i]).coord == c
}

/// The node `i` is the first one, or its cell is explored.
pub open spec fn settled(s: SearchState, maze: &Maze, i: int) -> bool {
    i == 0 || maze.explored@.contains(s.nodes[i].coord)
}

/// The node `i` waits in the queue.
pub open spec fn waits(s: SearchState, i: int) -> bool {
    exists|k: int| 0 <= k < s.queue.len() && (#[trigger] s.queue[k]).node == i
}

/// Every cell one step from the node `i` has been reached.
pub open spec fn spent(s: SearchState, maze: &Maze, i: int) -> bool {
    let adj = steps(maze.config, maze.walls@);
    forall|b: Coord| #[trigger] adj(s.nodes[i].coord, b) ==> is_node(s, b)
}

/// The nodes are cells of the grid.
#[verifier::opaque]
pub open spec fn in_grid(nodes: Seq<PathNode>, maze: &Maze) -> bool {
    forall|i: int|
        0 <= i < nodes.len() ==> (#[trigger] nodes[i]).coord.spec_valid_coord(
            maze.config.width,
            maze.config.height,
        )
}

/// Every node but the first is one step from the node it was reached from.
#[verifier::opaque]
pub open spec fn stepwise(nodes: Seq<PathNode>, maze: &Maze) -> bool {
    let adj = steps(maze.config, maze.walls@);
    forall|i: int|
        1 <= i < nodes.len() ==> (#[trigger] nodes[i]).previous is Some && adj(
            nodes[nodes[i].previous->0 as int].coord,
            nodes[i].coord,
        )
}

/// No two nodes after the first are the same cell. The cell of the first
/// node, the start, can be found once more from a cell beside it.
#[verifier::opaque]
pub open spec fn apart(nodes: Seq<PathNode>) -> bool {
    forall|i: int, j: int|
        1 <= i < j < nodes.len() ==> (#[trigger] nodes[i]).coord != (#[trigger] nodes[j]).coord
}

/// No node was reached from a later node of the first node's cell.
#[verifier::opaque]
pub open spec fn sprouted(nodes: Seq<PathNode>) -> bool {
    forall|i: int|
        1 <= i < nodes.len() && (#[trigger] nodes[i]).previous is Some ==> nodes[i].previous->0 == 0
            || nodes[nodes[i].previous->0 as int].coord != nodes[0].coord
}

/// Every node but the first was reached from the first node or from a cell
/// among `explored`; where `ahead` is set, the node the search stands on
/// may take their place.
#[verifier::opaque]
pub open spec fn handed(s: SearchState, explored: Set<Coord>, ahead: bool) -> bool {
    forall|i: int|
        1 <= i < s.nodes.len() ==> (#[trigger] s.nodes[i]).previous is Some && (
        s.nodes[i].previous->0 == 0 || explored.contains(
            s.nodes[s.nodes[i].previous->0 as int].coord,
        ) || (ahead && s.nodes[i].previous->0 == s.current))
}

/// The nodes are cells of the grid, no two of them after the first the same
/// cell; the first is the start, and every other node is one step from the
/// node it was reached from, which is no second node of the start.
pub open spec fn rooted(s: SearchState, maze: &Maze) -> bool {
    &&& s.nodes.len() > 0
    &&& s.nodes[0].coord == maze.start
    &&& s.goal == maze.end
    &&& in_grid(s.nodes, maze)
    &&& stepwise(s.nodes, maze)
    &&& apart(s.nodes)
    &&& sprouted(s.nodes)
}

/// Whether the nodes make a tree depends on the nodes, the goal, the grid
/// and the walls alone.
pub proof fn lemma_rooted_same(s: SearchState, t: SearchState, maze: &Maze, other: &Maze)
    requires
        rooted(s, maze),
        t.nodes == s.nodes,
        t.goal == s.goal,
        other.same_grid(maze),
        other.walls@ == maze.walls@,
    ensures
        rooted(t, other),
{
    reveal(in_grid);
    reveal(stepwise);
    reveal(apart);
    reveal(sprouted);
}

/// What holds between the ticks of a search says of its nodes.
pub proof fn lemma_inv_parts(s: SearchState, maze: &Maze)
    requires
        s.inv(maze),
    ensures
        s.wf(),
        rooted(s, maze),
        s.current < s.nodes.len(),
        linked(s.nodes),
{
    reveal(SearchState::inv);
    reveal(SearchState::wf);
}

impl SearchState {
    /// What holds between the ticks of a search on a maze that nothing else
    /// changes: the nodes make a tree of steps rooted at the start; every
    /// explored cell is a node; a search that marks on arrival stands on the
    /// first node or on an explored cell; every cell one step from the
    /// start is reached once the search has left the first node; every
    /// node but the first was reached from the first node or from an
    /// explored cell; every node is the current one, waits in the queue, or
    /// is the first node or explored, with every cell one step from it
    /// reached; and the goal is not left behind.
    #[verifier::opaque]
    pub open spec fn inv(self, maze: &Maze) -> bool {
        &&& self.wf()
        &&& rooted(self, maze)
        &&& forall|c: Coord| #[trigger] maze.explored@.contains(c) ==> is_node(self, c)
        &&& self.priority.spec_marks_on_arrival() ==> settled(self, maze, self.current as int)
        &&& self.current == 0 || spent(self, maze, 0)
        &&& handed(self, maze.explored@, false)
        &&& forall|i: int|
            0 <= i < self.nodes.len() ==> i == self.current || #[trigger] waits(self, i) || (
            settled(self, maze, i) && spent(self, maze, i) && self.nodes[i].coord != self.goal)
    }

    /// A bound on the number of ticks the search has left.
    pub open spec fn fuel(self, maze: &Maze) -> int {
        maze.config.width * maze.config.height + 1 - self.nodes.len() + self.queue.len()
    }
}

/// A search about to begin on a maze with nothing explored stands on the
/// start.
pub proof fn lemma_inv_at_start(maze: &Maze, priority: Priority)
    requires
        maze.wf(),
        maze.explored@ == Set::<Coord>::empty(),
    ensures
        SearchState::at_start(maze, priority).inv(maze),
{
    reveal(SearchState::inv);
    reveal(SearchState::wf);
    reveal(in_grid);
    reveal(stepwise);
    reveal(apart);
    reveal(sprouted);
    reveal(handed);
}

/// What holds between the ticks depends on the grid, the walls and the
/// explored cells alone.
pub proof fn lemma_inv_frame(s: SearchState, maze: &Maze, other: &Maze)
    requires
        s.inv(maze),
        other.same_grid(maze),
        other.walls@ == maze.walls@,
        other.explored@ == maze.explored@,
    ensures
        s.inv(other),
{
    reveal(SearchState::inv);
    lemma_rooted_same(s, s, maze, other);
    assert forall|i: int| 0 <= i < s.nodes.len() implies spent(s, maze, i) == spent(s, other, i) by {}
}

/// The fuel does not run below zero.
pub proof fn lemma_fuel_bound(s: SearchState, maze: &Maze)
    requires
        maze.wf(),
        s.inv(maze),
    ensures
        s.fuel(maze) >= 0,
{
    reveal(SearchState::inv);
    lemma_node_count(s, maze);
}

/// The way back from the current cell, read from its end, is a walk from
/// the start of the maze to the current cell.
pub proof fn lemma_way_back(s: SearchState, maze: &Maze)
    requires
        maze.wf(),
        s.inv(maze),
    ensures
        s.goal == maze.end,
        is_walk(
            steps(maze.config, maze.walls@),
            chain(s.nodes, s.current as int).reverse(),
        ),
        chain(s.nodes, s.current as int).last() == maze.start,
        chain(s.nodes, s.current as int)[0] == s.position(),
{
    reveal(SearchState::inv);
    reveal(SearchState::wf);
    let adj = steps(maze.config, maze.walls@);
    let back = chain(s.nodes, s.current as int);
    lemma_chain_walk(s, maze, s.current as int);
    let p = back.reverse();
    assert forall|k: int| 0 <= k < p.len() - 1 implies adj(#[trigger] p[k], p[k + 1]) by {
        let j = back.len() - 2 - k;
        assert(adj(back[j + 1], back[j]));
        assert(p[k] == back[j + 1]);
        assert(p[k + 1] == back[j]);
    }
}

/// The cells found from the current one are one step from it, have not been
/// reached before, and are distinct.
pub proof fn lemma_found(s: SearchState, maze: &Maze)
    requires
        maze.wf(),
        s.inv(maze),
    ensures
        ({
            let adj = steps(maze.config, maze.walls@);
            let found = s.found(maze);
            &&& forall|k: int|
                0 <= k < found.len() ==> adj(s.position(), (#[trigger] found[k]).0) && !is_late(
                    s,
                    found[k].0,
                )
            &&& forall|k: int, l: int|
                0 <= k < l < found.len() ==> (#[trigger] found[k]).0 != (#[trigger] found[l]).0
            &&& forall|b: Coord| #[trigger]
                adj(s.position(), b) && !is_node(s, b) && s.position() != maze.end ==> exists|
                    k: int,
                |
                    0 <= k < found.len() && (#[trigger] found[k]).0 == b
        }),
{
    reveal(SearchState::inv);
    reveal(SearchState::wf);
    let adj = steps(maze.config, maze.walls@);
    let w = maze.config.width;
    let h = maze.config.height;
    let c = s.position();
    let found = s.found(maze);
    let all = c.spec_neighbours(w, h);
    let open = |n: (Coord, Direction)| !maze.walls@.contains(c.spec_wall(n.1, maze.config));
    let around = maze.spec_connected_neighbours(c);
    let fresh = s.is_new(maze);
    lemma_neighbour_entries(c, w, h);
    assert(c.spec_valid_coord(w, h)) by {
        reveal(in_grid);
        assert(s.nodes[s.current as int].coord == c);
    }
    if maze.end != c {
        assert forall|k: int| 0 <= k < found.len() implies adj(c, (#[trigger] found[k]).0)
            && !is_late(s, found[k].0) by {
            let e = found[k];
            assert(found.contains(e));
            around.lemma_filter_contains_rev(fresh, e);
            all.lemma_filter_contains_rev(open, e);
            around.lemma_filter_pred(fresh, k);
            let i0 = choose|i0: int| 0 <= i0 < around.len() && around[i0] == e;
            all.lemma_filter_pred(open, i0);
            assert(leads(maze.config, maze.walls@, c, e.1, e.0));
            if is_late(s, e.0) {
                let i = choose|i: int| 1 <= i < s.nodes.len() && (#[trigger] s.nodes[i]).coord == e.0;
                if waits(s, i) {
                    let q = choose|q: int| 0 <= q < s.queue.len() && (#[trigger] s.queue[q]).node == i;
                    assert(queued(s.nodes, s.queue, e.0));
                }
                assert(i != s.current) by {
                    lemma_no_self_step(maze, c);
                }
                assert(settled(s, maze, i));
            }
        }
        assert forall|k: int, l: int| 0 <= k < l < found.len() implies (#[trigger] found[k]).0 != (
        #[trigger] found[l]).0 by {
            lemma_filter_order(around, fresh, k, l);
            let (k1, l1) = choose|k1: int, l1: int|
                0 <= k1 < l1 < around.len() && around[k1] == found[k] && around[l1] == found[l];
            lemma_filter_order(all, open, k1, l1);
            let (k2, l2) = choose|k2: int, l2: int|
                0 <= k2 < l2 < all.len() && all[k2] == around[k1] && all[l2] == around[l1];
            lemma_neighbours_distinct(c, w, h, k2, l2);
        }
        assert forall|b: Coord| #[trigger] adj(c, b) && !is_node(s, b) implies exists|k: int|
            0 <= k < found.len() && (#[trigger] found[k]).0 == b by {
            let d = if leads(maze.config, maze.walls@, c, Direction::North, b) {
                Direction::North
            } else if leads(maze.config, maze.walls@, c, Direction::East, b) {
                Direction::East
            } else if leads(maze.config, maze.walls@, c, Direction::South, b) {
                Direction::South
            } else {
                Direction::West
            };
            assert(all.contains((b, d)));
            let i = choose|i: int| 0 <= i < all.len() && all[i] == (b, d);
            all.lemma_filter_contains(open, i);
            let j = choose|j: int| 0 <= j < around.len() && around[j] == (b, d);
            assert(fresh((b, d))) by {
                if queued(s.nodes, s.queue, b) {
                    let q = choose|q: int|
                        0 <= q < s.queue.len() && s.nodes[(#[trigger] s.queue[q]).node as int].coord
                            == b;
                    assert(s.queue[q].node < s.nodes.len());
                    assert(s.nodes[s.queue[q].node as int].coord == b);
                }
                if maze.explored@.contains(b) {
                    assert(is_node(s, b));
                }
            }
            around.lemma_filter_contains(fresh, j);
            let k = choose|k: int| 0 <= k < found.len() && found[k] == (b, d);
            assert(found[k].0 == b);
        }
    }
}

/// No step leads from a cell to itself.
pub proof fn lemma_no_self_step(maze: &Maze, c: Coord)
    ensures
        !steps(maze.config, maze.walls@)(c, c),
{
}

/// A search that has come back to the start finds nothing there: every
/// cell one step from the start waits or is explored.
pub proof fn lemma_found_none(s: SearchState, maze: &Maze)
    requires
        maze.wf(),
        s.inv(maze),
        s.current != 0,
        s.position() == maze.start,
    ensures
        s.found(maze).len() == 0,
{
    reveal(SearchState::inv);
    reveal(SearchState::wf);
    let adj = steps(maze.config, maze.walls@);
    let found = s.found(maze);
    lemma_found(s, maze);
    if found.len() > 0 {
        let b = found[0].0;
        assert(adj(s.position(), b));
        assert(adj(s.nodes[0].coord, b));
        assert(spent(s, maze, 0));
        assert(is_node(s, b));
        let i = choose|i: int| 0 <= i < s.nodes.len() && (#[trigger] s.nodes[i]).coord == b;
        lemma_no_self_step(maze, b);
        assert(i != 0);
        assert(is_late(s, b));
    }
}

/// What a filter keeps stays in its order.
pub proof fn lemma_filter_order<A>(list: Seq<A>, keep: spec_fn(A) -> bool, k: int, l: int)
    requires
        0 <= k < l < list.filter(keep).len(),
    ensures
        exists|k1: int, l1: int|
            0 <= k1 < l1 < list.len() && list[k1] == list.filter(keep)[k] && list[l1]
                == list.filter(keep)[l],
    decreases list.len(),
{
    reveal(Seq::filter);
    if list.len() > 0 {
        let rest = list.drop_last();
        let kept = rest.filter(keep);
        if l < kept.len() {
            lemma_filter_order(rest, keep, k, l);
            let (k1, l1) = choose|k1: int, l1: int|
                0 <= k1 < l1 < rest.len() && rest[k1] == kept[k] && rest[l1] == kept[l];
            assert(list[k1] == rest[k1] && list[l1] == rest[l1]);
        } else {
            assert(keep(list.last()) && l == kept.len());
            assert(kept.contains(kept[k]));
            rest.lemma_filter_contains_rev(keep, kept[k]);
            let k1 = choose|k1: int| 0 <= k1 < rest.len() && rest[k1] == kept[k];
            assert(list[k1] == rest[k1]);
            assert(list[list.len() - 1] == list.filter(keep)[l]);
        }
    }
}

/// The neighbours of a cell are distinct cells.
pub proof fn lemma_neighbours_distinct(c: Coord, w: u32, h: u32, k: int, l: int)
    requires
        0 <= k < l < c.spec_neighbours(w, h).len(),
    ensures
        c.spec_neighbours(w, h)[k].0 != c.spec_neighbours(w, h)[l].0,
{
    let n = c.towards(Direction::North, w, h);
    let e = c.towards(Direction::East, w, h);
    let s = c.towards(Direction::South, w, h);
    let x = c.towards(Direction::West, w, h);
    let all = c.spec_neighbours(w, h);
    lemma_neighbour_entries(c, w, h);
    assert(all.contains(all[k]));
    assert(all.contains(all[l]));
    assert(c.spec_neighbour(all[k].1, w, h) == Some(all[k].0));
    assert(c.spec_neighbour(all[l].1, w, h) == Some(all[l].0));
    if all[k].1 == all[l].1 {
        let dk = if k < n.len() {
            Direction::North
        } else if k < n.len() + e.len() {
            Direction::East
        } else if k < n.len() + e.len() + s.len() {
            Direction::South
        } else {
            Direction::West
        };
        let dl = if l < n.len() {
            Direction::North
        } else if l < n.len() + e.len() {
            Direction::East
        } else if l < n.len() + e.len() + s.len() {
            Direction::South
        } else {
            Direction::West
        };
        assert(all[k].1 == dk);
        assert(all[l].1 == dl);
    }
}

/// The search after it has found the cells of a list has one node more for
/// each cell of the list.
pub proof fn lemma_expanded_len(s: SearchState, cells: Seq<(Coord, Direction)>)
    ensures
        s.expanded(cells).nodes.len() == s.nodes.len() + cells.len(),
    decreases cells.len(),
{
    if cells.len() > 0 {
        lemma_expanded_len(s.grown(cells[0].0), cells.drop_first());
    }
}

/// The search after it has found the cells of a list: the nodes reached
/// before are as they were, one node follows for each cell of the list,
/// and the new nodes wait in the queue beside those that waited before.
pub proof fn lemma_expanded(s: SearchState, cells: Seq<(Coord, Direction)>)
    requires
        s.current < s.nodes.len(),
        s.nodes.len() + cells.len() <= usize::MAX,
    ensures
        ({
            let e = s.expanded(cells);
            &&& e.current == s.current
            &&& e.goal == s.goal
            &&& e.nodes.len() == s.nodes.len() + cells.len()
            &&& e.queue.len() == s.queue.len() + cells.len()
            &&& forall|i: int| 0 <= i < s.nodes.len() ==> #[trigger] e.nodes[i] == s.nodes[i]
            &&& forall|i: int|
                s.nodes.len() <= i < s.nodes.len() + cells.len() ==> (#[trigger] e.nodes[i]).coord
                    == cells[i - s.nodes.len()].0 && e.nodes[i].previous == Some(s.current)
            &&& forall|i: int| #[trigger]
                waits(e, i) <==> waits(s, i) || s.nodes.len() <= i < s.nodes.len() + cells.len()
        }),
    decreases cells.len(),
{
    if cells.len() > 0 {
        let g = s.grown(cells[0].0);
        let rest = cells.drop_first();
        let e = g.expanded(rest);
        lemma_expanded(g, rest);
        let entry = Entry { key: s.key_of(cells[0].0), node: s.nodes.len() as usize };
        lemma_rank_bounds(s.queue, entry.key);
        s.queue.insert_ensures(rank(s.queue, entry.key), entry);
        let p = rank(s.queue, entry.key);
        assert forall|i: int| #[trigger] waits(g, i) <==> waits(s, i) || i == s.nodes.len() by {
            if waits(g, i) {
                let k = choose|k: int| 0 <= k < g.queue.len() && (#[trigger] g.queue[k]).node == i;
                if k < p {
                    assert(s.queue[k].node == i);
                } else if k > p {
                    assert(g.queue[k] == s.queue[k - 1]);
                    assert(s.queue[k - 1].node == i);
                }
            }
            if waits(s, i) {
                let k = choose|k: int| 0 <= k < s.queue.len() && (#[trigger] s.queue[k]).node == i;
                if k < p {
                    assert(g.queue[k].node == i);
                } else {
                    assert(g.queue[k + 1] == s.queue[k]);
                    assert(g.queue[k + 1].node == i);
                }
            }
            if i == s.nodes.len() {
                assert(g.queue[p].node == i);
            }
        }
        assert forall|i: int| 0 <= i < s.nodes.len() implies #[trigger] e.nodes[i] == s.nodes[i] by {
            assert(e.nodes[i] == g.nodes[i]);
        }
        assert forall|i: int| s.nodes.len() <= i < s.nodes.len() + cells.len() implies (
        #[trigger] e.nodes[i]).coord == cells[i - s.nodes.len()].0 && e.nodes[i].previous == Some(
            s.current,
        ) by {
            if i == s.nodes.len() {
                assert(e.nodes[i] == g.nodes[i]);
            } else {
                assert(e.nodes[i].coord == rest[i - g.nodes.len()].0);
                assert(rest[i - g.nodes.len()] == cells[i - s.nodes.len()]);
            }
        }
        assert forall|i: int| #[trigger]
            waits(e, i) <==> waits(s, i) || s.nodes.len() <= i < s.nodes.len() + cells.len() by {
            assert(waits(e, i) <==> waits(g, i) || g.nodes.len() <= i < g.nodes.len() + rest.len());
            assert(waits(g, i) <==> waits(s, i) || i == s.nodes.len());
        }
    }
}

/// The rank of a key lies within the queue.
pub proof fn lemma_rank_bounds(q: Seq<Entry>, key: u128)
    ensures
        0 <= rank(q, key) <= q.len(),
    decreases q.len(),
{
    if q.len() > 0 && q[0].key <= key {
        lemma_rank_bounds(q.drop_first(), key);
    }
}

/// There are no more nodes than the grid has cells, but for a second node
/// of the start.
pub proof fn lemma_node_count(s: SearchState, maze: &Maze)
    requires
        maze.wf(),
        rooted(s, maze),
    ensures
        s.nodes.len() <= maze.config.width * maze.config.height + 1,
{
    reveal(in_grid);
    reveal(apart);
    let late = s.nodes.drop_first();
    let coords = late.map_values(|n: PathNode| n.coord);
    assert(coords.no_duplicates()) by {
        assert forall|i: int, j: int|
            0 <= i < coords.len() && 0 <= j < coords.len() && i != j implies coords[i]
            != coords[j] by {
            assert(late[i] == s.nodes[i + 1] && late[j] == s.nodes[j + 1]);
            if i < j {
                assert(s.nodes[i + 1].coord != s.nodes[j + 1].coord);
            } else {
                assert(s.nodes[j + 1].coord != s.nodes[i + 1].coord);
            }
        }
    }
    coords.unique_seq_to_set();
    lemma_cell_count(maze.config);
    assert(coords.to_set().subset_of(all_cells(maze.config))) by {
        assert forall|c: Coord| coords.to_set().contains(c) implies all_cells(maze.config).contains(
            c,
        ) by {
            let i = choose|i: int| 0 <= i < coords.len() && coords[i] == c;
            assert(late[i] == s.nodes[i + 1]);
            assert(s.nodes[i + 1].coord == c);
        }
    }
    vstd::set_lib::lemma_len_subset(coords.to_set(), all_cells(maze.config));
}

/// Nodes after the first that are distinct cells stay distinct cells when
/// nodes follow for distinct cells that were no such nodes before.
pub proof fn lemma_distinct_grows(old_nodes: Seq<PathNode>, nodes: Seq<PathNode>, cells: Seq<Coord>)
    requires
        nodes.len() == old_nodes.len() + cells.len(),
        forall|i: int| 0 <= i < old_nodes.len() ==> #[trigger] nodes[i] == old_nodes[i],
        forall|i: int|
            old_nodes.len() <= i < nodes.len() ==> (#[trigger] nodes[i]).coord == cells[i
                - old_nodes.len()],
        old_nodes.len() >= 1,
        forall|i: int, j: int|
            1 <= i < j < old_nodes.len() ==> (#[trigger] old_nodes[i]).coord
                != (#[trigger] old_nodes[j]).coord,
        forall|i: int, k: int|
            1 <= i < old_nodes.len() && 0 <= k < cells.len() ==> (#[trigger] old_nodes[i]).coord
                != #[trigger] cells[k],
        forall|k: int, l: int| 0 <= k < l < cells.len() ==> #[trigger] cells[k] != #[trigger] cells[l],
    ensures
        forall|i: int, j: int|
            1 <= i < j < nodes.len() ==> (#[trigger] nodes[i]).coord != (#[trigger] nodes[j]).coord,
{
    let n0 = old_nodes.len() as int;
    assert forall|i: int, j: int| 1 <= i < j < nodes.len() implies (#[trigger] nodes[i]).coord != (
    #[trigger] nodes[j]).coord by {
        if j < n0 {
            assert(nodes[i] == old_nodes[i] && nodes[j] == old_nodes[j]);
            assert(old_nodes[i].coord != old_nodes[j].coord);
        } else if i < n0 {
            assert(nodes[i] == old_nodes[i]);
            assert(old_nodes[i].coord != cells[j - n0]);
        } else {
            assert(cells[i - n0] != cells[j - n0]);
        }
    }
}

/// After a search has found the cells around the current one, the nodes are
/// cells of the grid.
pub proof fn lemma_grown_in_grid(s: SearchState, maze: &Maze)
    requires
        maze.wf(),
        s.inv(maze),
        s.nodes.len() + s.found(maze).len() <= usize::MAX,
    ensures
        in_grid(s.expanded(s.found(maze)).nodes, maze),
{
    let found = s.found(maze);
    let g = s.expanded(found);
    let n0 = s.nodes.len() as int;
    lemma_inv_parts(s, maze);
    lemma_expanded(s, found);
    reveal(in_grid);
    assert forall|i: int| 0 <= i < g.nodes.len() implies (#[trigger] g.nodes[i]).coord.spec_valid_coord(
        maze.config.width,
        maze.config.height,
    ) by {
        if i < n0 {
            assert(g.nodes[i] == s.nodes[i]);
        } else {
            crate::solver::search::lemma_found_valid(s, maze, i - n0);
        }
    }
}

/// After a search has found the cells around the current one, every node
/// but the first is one step from the node it was reached from.
pub proof fn lemma_grown_stepwise(s: SearchState, maze: &Maze)
    requires
        maze.wf(),
        s.inv(maze),
        s.nodes.len() + s.found(maze).len() <= usize::MAX,
    ensures
        stepwise(s.expanded(s.found(maze)).nodes, maze),
{
    let adj = steps(maze.config, maze.walls@);
    let found = s.found(maze);
    let g = s.expanded(found);
    let n0 = s.nodes.len() as int;
    let c = s.position();
    lemma_inv_parts(s, maze);
    lemma_found(s, maze);
    lemma_expanded(s, found);
    reveal(stepwise);
    assert(g.nodes[s.current as int] == s.nodes[s.current as int]);
    assert forall|i: int| 1 <= i < g.nodes.len() implies (#[trigger] g.nodes[i]).previous is Some
        && adj(g.nodes[g.nodes[i].previous->0 as int].coord, g.nodes[i].coord) by {
        if i < n0 {
            assert(g.nodes[i] == s.nodes[i]);
            assert(s.nodes[i].previous is Some);
            let p = s.nodes[i].previous->0 as int;
            assert(p < i);
            assert(g.nodes[p] == s.nodes[p]);
        } else {
            assert(adj(c, found[i - n0].0));
        }
    }
}

/// After a search has found the cells around the current one, no two nodes
/// after the first are the same cell.
pub proof fn lemma_grown_apart(s: SearchState, maze: &Maze)
    requires
        maze.wf(),
        s.inv(maze),
        s.nodes.len() + s.found(maze).len() <= usize::MAX,
    ensures
        apart(s.expanded(s.found(maze)).nodes),
{
    let found = s.found(maze);
    let g = s.expanded(found);
    lemma_inv_parts(s, maze);
    lemma_found(s, maze);
    lemma_expanded(s, found);
    reveal(apart);
    let cells = found.map_values(|e: (Coord, Direction)| e.0);
    assert forall|i: int, k: int| 1 <= i < s.nodes.len() && 0 <= k < cells.len() implies (
    #[trigger] s.nodes[i]).coord != #[trigger] cells[k] by {
        assert(!is_late(s, found[k].0));
    }
    assert forall|k: int, l: int| 0 <= k < l < cells.len() implies #[trigger] cells[k]
        != #[trigger] cells[l] by {
        assert(found[k].0 != found[l].0);
    }
    lemma_distinct_grows(s.nodes, g.nodes, cells);
}

/// After a search has found the cells around the current one, no node was
/// reached from a second node of the start.
pub proof fn lemma_grown_sprouted(s: SearchState, maze: &Maze)
    requires
        maze.wf(),
        s.inv(maze),
        s.nodes.len() + s.found(maze).len() <= usize::MAX,
    ensures
        sprouted(s.expanded(s.found(maze)).nodes),
{
    let found = s.found(maze);
    let g = s.expanded(found);
    let n0 = s.nodes.len() as int;
    lemma_inv_parts(s, maze);
    lemma_expanded(s, found);
    if s.current != 0 && s.position() == maze.start {
        lemma_found_none(s, maze);
    }
    reveal(sprouted);
    assert(g.nodes[0] == s.nodes[0]);
    assert(g.nodes[s.current as int] == s.nodes[s.current as int]);
    assert forall|i: int| 1 <= i < g.nodes.len() && (#[trigger] g.nodes[i]).previous is Some implies
        g.nodes[i].previous->0 == 0 || g.nodes[g.nodes[i].previous->0 as int].coord
        != g.nodes[0].coord by {
        if i < n0 {
            assert(g.nodes[i] == s.nodes[i]);
            let p = s.nodes[i].previous->0 as int;
            assert(p < i);
            assert(g.nodes[p] == s.nodes[p]);
        }
    }
}

/// The search after it has found the cells around the current one: the
/// nodes still make a tree of steps rooted at the start.
pub proof fn lemma_grown_rooted(s: SearchState, maze: &Maze)
    requires
        maze.wf(),
        s.inv(maze),
        s.nodes.len() + s.found(maze).len() <= usize::MAX,
    ensures
        rooted(s.expanded(s.found(maze)), maze),
{
    let found = s.found(maze);
    let g = s.expanded(found);
    lemma_inv_parts(s, maze);
    lemma_expanded(s, found);
    assert(g.nodes[0] == s.nodes[0]);
    lemma_grown_in_grid(s, maze);
    lemma_grown_stepwise(s, maze);
    lemma_grown_apart(s, maze);
    lemma_grown_sprouted(s, maze);
}

/// After a search has found the cells around the current one, every node
/// but the first was reached from the first node, from an explored cell or
/// from the current node.
pub proof fn lemma_grown_handed(s: SearchState, maze: &Maze)
    requires
        maze.wf(),
        s.inv(maze),
        s.nodes.len() + s.found(maze).len() <= usize::MAX,
    ensures
        handed(s.expanded(s.found(maze)), maze.explored@, true),
{
    let found = s.found(maze);
    let g = s.expanded(found);
    let n0 = s.nodes.len() as int;
    lemma_inv_parts(s, maze);
    lemma_expanded(s, found);
    assert(handed(s, maze.explored@, false)) by {
        reveal(SearchState::inv);
    }
    reveal(handed);
    assert forall|i: int| 1 <= i < g.nodes.len() implies (#[trigger] g.nodes[i]).previous is Some && (
    g.nodes[i].previous->0 == 0 || maze.explored@.contains(
        g.nodes[g.nodes[i].previous->0 as int].coord,
    ) || g.nodes[i].previous->0 == g.current) by {
        if i < n0 {
            assert(g.nodes[i] == s.nodes[i]);
            let p = s.nodes[i].previous->0 as int;
            assert(p < i) by {
                assert(linked(s.nodes));
            }
            assert(g.nodes[p] == s.nodes[p]);
        }
    }
}

/// When a search moves on, every node but the first was reached from the
/// first node or from an explored cell, if the cell it leaves is the start
/// or explored.
pub proof fn lemma_moved_handed(g: SearchState, explored: Set<Coord>, after: Set<Coord>)
    requires
        handed(g, explored, true),
        explored.subset_of(after),
        g.current < g.nodes.len(),
        g.current == 0 || after.contains(g.position()),
    ensures
        handed(g.moved(), after, false),
{
    reveal(handed);
    let next = g.moved();
    assert forall|i: int| 1 <= i < next.nodes.len() implies (#[trigger] next.nodes[i]).previous is Some
        && (next.nodes[i].previous->0 == 0 || after.contains(
        next.nodes[next.nodes[i].previous->0 as int].coord,
    )) by {
        assert(g.nodes[i].previous is Some);
    }
}

/// The search has looked around its current cell: every explored cell and
/// the current one are nodes, every cell one step from the current one or
/// from the start is a node, and every node but the current one waits in
/// the queue or is the first node or explored, with every cell one step
/// from it reached, and is not the goal.
#[verifier::opaque]
pub open spec fn covered(g: SearchState, maze: &Maze) -> bool {
    &&& g.current < g.nodes.len()
    &&& g.nodes[g.current as int].coord != g.goal
    &&& spent(g, maze, g.current as int)
    &&& spent(g, maze, 0)
    &&& g.priority.spec_marks_on_arrival() ==> settled(g, maze, g.current as int)
    &&& forall|c: Coord| #[trigger] maze.explored@.contains(c) ==> is_node(g, c)
    &&& forall|i: int|
        0 <= i < g.nodes.len() ==> i == g.current || #[trigger] waits(g, i) || (settled(g, maze, i)
            && spent(g, maze, i) && g.nodes[i].coord != g.goal)
}

/// After a search that is not at its goal has found the cells around the
/// current one, it has looked around its current cell.
pub proof fn lemma_grown_covered(s: SearchState, maze: &Maze)
    requires
        maze.wf(),
        s.inv(maze),
        s.position() != s.goal,
        s.nodes.len() + s.found(maze).len() <= usize::MAX,
    ensures
        covered(s.expanded(s.found(maze)), maze),
{
    let adj = steps(maze.config, maze.walls@);
    let found = s.found(maze);
    let g = s.expanded(found);
    let n0 = s.nodes.len() as int;
    let c = s.position();
    lemma_found(s, maze);
    reveal(SearchState::inv);
    reveal(covered);
    assert(s.current < s.nodes.len()) by {
        reveal(SearchState::wf);
    }
    lemma_expanded(s, found);
    assert(g.nodes[s.current as int] == s.nodes[s.current as int]);
    assert forall|b: Coord| is_node(s, b) implies is_node(g, b) by {
        let i = choose|i: int| 0 <= i < s.nodes.len() && (#[trigger] s.nodes[i]).coord == b;
        assert(g.nodes[i] == s.nodes[i]);
    }
    assert forall|b: Coord| #[trigger] adj(c, b) implies is_node(g, b) by {
        if !is_node(s, b) {
            let k = choose|k: int| 0 <= k < found.len() && (#[trigger] found[k]).0 == b;
            assert(g.nodes[n0 + k].coord == found[n0 + k - n0].0);
        }
    }
    assert forall|i: int| 0 <= i < g.nodes.len() implies i == g.current || #[trigger] waits(g, i)
        || (settled(g, maze, i) && spent(g, maze, i) && g.nodes[i].coord != g.goal) by {
        if i != s.current && !waits(g, i) {
            assert(i < n0);
            assert(g.nodes[i] == s.nodes[i]);
            assert(!waits(s, i));
            assert(spent(s, maze, i));
            assert forall|b: Coord| #[trigger] adj(g.nodes[i].coord, b) implies is_node(g, b) by {
                assert(is_node(s, b));
            }
        }
    }
    assert(g.nodes[0] == s.nodes[0]);
    assert(spent(g, maze, 0)) by {
        if s.current != 0 {
            assert(spent(s, maze, 0));
            assert forall|b: Coord| #[trigger] adj(g.nodes[0].coord, b) implies is_node(g, b) by {
                assert(is_node(s, b));
            }
        }
    }
    assert(g.priority == s.priority && g.current == s.current) by {
        crate::solver::search::lemma_expanded_keeps(s, found);
    }
}

/// A search that has looked around its current cell and has no node left
/// in its queue has reached every cell that a walk leads to from the start,
/// and the goal is not among them.
pub proof fn lemma_covered_stuck(g: SearchState, maze: &Maze)
    requires
        rooted(g, maze),
        covered(g, maze),
        g.queue.len() == 0,
    ensures
        !connected(steps(maze.config, maze.walls@), maze.start, maze.end),
{
    reveal(covered);
    let adj = steps(maze.config, maze.walls@);
    if connected(adj, maze.start, maze.end) {
        let p = choose|p: Seq<Coord>| #[trigger]
            is_walk(adj, p) && p[0] == maze.start && p.last() == maze.end;
        let region = Set::new(|b: Coord| is_node(g, b));
        assert(region.contains(maze.start)) by {
            assert(g.nodes[0].coord == maze.start);
        }
        assert forall|a: Coord, b: Coord| #[trigger] adj(a, b) && region.contains(
            a,
        ) implies region.contains(b) by {
            let i = choose|i: int| 0 <= i < g.nodes.len() && (#[trigger] g.nodes[i]).coord == a;
            if waits(g, i) {
                let k = choose|k: int| 0 <= k < g.queue.len() && (#[trigger] g.queue[k]).node == i;
            }
            assert(spent(g, maze, i));
        }
        lemma_walk_stays(adj, region, p);
        let i = choose|i: int| 0 <= i < g.nodes.len() && (#[trigger] g.nodes[i]).coord == maze.end;
        if waits(g, i) {
            let k = choose|k: int| 0 <= k < g.queue.len() && (#[trigger] g.queue[k]).node == i;
        }
        assert(false);
    }
}

/// A search that has looked around its current cell moves on to the first
/// node of its queue.
pub proof fn lemma_covered_moves(g: SearchState, maze: &Maze, result: &Maze)
    requires
        maze.wf(),
        result.same_grid(maze),
        result.walls@ == maze.walls@,
        rooted(g, maze),
        covered(g, maze),
        g.queue.len() > 0,
        g.moved().wf(),
        handed(g, maze.explored@, true),
        result.explored@ == g.seen_at(maze, g.moved().position()),
    ensures
        g.moved().inv(result),
{
    reveal(covered);
    lemma_moved_handed(g, maze.explored@, result.explored@);
    reveal(SearchState::inv);
    let adj = steps(maze.config, maze.walls@);
    let next = g.moved();
    let m = next.current as int;
    assert(waits(g, m)) by {
        assert(g.queue[0].node == m);
    }
    assert(m < g.nodes.len()) by {
        reveal(SearchState::wf);
    }
    assert forall|b: Coord| #[trigger] result.explored@.contains(b) implies is_node(next, b) by {
        if maze.explored@.contains(b) {
            assert(is_node(g, b));
        } else if b == g.position() {
            assert(g.nodes[g.current as int].coord == b);
        } else {
            assert(g.nodes[m].coord == b);
        }
    }
    assert(spent(next, result, 0)) by {
        assert(spent(g, maze, 0));
        assert forall|b: Coord| #[trigger] adj(next.nodes[0].coord, b) implies is_node(next, b) by {
            assert(is_node(g, b));
        }
    }
    assert forall|i: int| 0 <= i < next.nodes.len() implies i == next.current || #[trigger] waits(
        next,
        i,
    ) || (settled(next, result, i) && spent(next, result, i) && next.nodes[i].coord
        != next.goal) by {
        if i != m {
            if waits(g, i) {
                let k = choose|k: int| 0 <= k < g.queue.len() && (#[trigger] g.queue[k]).node == i;
                assert(k >= 1);
                assert(next.queue[k - 1] == g.queue[k]);
                assert(next.queue[k - 1].node == i);
            } else {
                assert(spent(g, maze, i));
                assert forall|b: Coord| #[trigger] adj(next.nodes[i].coord, b) implies is_node(
                    next,
                    b,
                ) by {
                    assert(is_node(g, b));
                }
            }
        }
    }
    lemma_rooted_same(g, next, maze, result);
}

/// A tick of a search that is not at its goal keeps what holds between the
/// ticks and uses up fuel, and does not fail where a walk leads from the
/// start to the goal.
pub proof fn lemma_tick(
    s: SearchState,
    maze: &Maze,
    after: SearchState,
    result: &Maze,
    r: Result<(), Error>,
)
    requires
        maze.wf(),
        result.same_grid(maze),
        result.walls@ == maze.walls@,
        s.inv(maze),
        s.position() != s.goal,
        after.wf(),
        Search::ticked(s, maze, after, result, r),
        after.nodes.len() <= usize::MAX,
    ensures
        connected(steps(maze.config, maze.walls@), maze.start, maze.end) ==> r is Ok,
        r is Ok ==> after.inv(result) && after.fuel(result) < s.fuel(maze),
{
    let found = s.found(maze);
    let g = s.expanded(found);
    lemma_expanded_len(s, found);
    lemma_expanded_sizes(s, found);
    lemma_grown_rooted(s, maze);
    lemma_grown_covered(s, maze);
    if g.queue.len() == 0 {
        lemma_covered_stuck(g, maze);
    } else {
        assert(g.position() == s.position()) by {
            reveal(covered);
            reveal(SearchState::inv);
            reveal(SearchState::wf);
            lemma_expanded(s, found);
        }
        assert(g.priority == s.priority) by {
            crate::solver::search::lemma_expanded_keeps(s, found);
        }
        lemma_grown_handed(s, maze);
        lemma_covered_moves(g, maze, result);
        lemma_node_count(g, maze);
    }
}

/// Finding cells adds as many entries to the queue as nodes to the trail.
pub proof fn lemma_expanded_sizes(s: SearchState, cells: Seq<(Coord, Direction)>)
    ensures
        s.expanded(cells).queue.len() == s.queue.len() + cells.len(),
    decreases cells.len(),
{
    if cells.len() > 0 {
        let entry = Entry { key: s.key_of(cells[0].0), node: s.nodes.len() as usize };
        lemma_rank_bounds(s.queue, entry.key);
        s.queue.insert_ensures(rank(s.queue, entry.key), entry);
        lemma_expanded_sizes(s.grown(cells[0].0), cells.drop_first());
    }
}

/// The way back from a node of a search, read from its end, is a walk from
/// the start; from any node but a second node of the start it visits no
/// cell twice.
pub proof fn lemma_chain_walk(s: SearchState, maze: &Maze, i: int)
    requires
        rooted(s, maze),
        linked(s.nodes),
        0 <= i < s.nodes.len(),
    ensures
        ({
            let adj = steps(maze.config, maze.walls@);
            let back = chain(s.nodes, i);
            &&& back.len() > 0
            &&& back[0] == s.nodes[i].coord
            &&& back.last() == maze.start
            &&& forall|k: int| 0 <= k < back.len() - 1 ==> adj(back[k + 1], #[trigger] back[k])
            &&& forall|k: int|
                0 <= k < back.len() ==> exists|j: int|
                    0 <= j <= i && (#[trigger] s.nodes[j]).coord == #[trigger] back[k] && (k > 0
                        ==> j < i && (j == 0 || s.nodes[j].coord != maze.start))
            &&& i == 0 || s.nodes[i].coord != maze.start ==> back.no_duplicates()
        }),
    decreases i,
{
    reveal(stepwise);
    reveal(apart);
    reveal(sprouted);
    let adj = steps(maze.config, maze.walls@);
    let back = chain(s.nodes, i);
    if i == 0 {
        assert(s.nodes[0].previous is None) by {
            assert(linked(s.nodes));
            if s.nodes[0].previous is Some {
                assert(s.nodes[0].previous->0 < 0);
            }
        }
        assert(back =~= seq![s.nodes[0].coord]);
        assert(s.nodes[0].coord == back[0]);
    } else {
        assert(s.nodes[i].previous is Some);
        let p = s.nodes[i].previous->0 as int;
        assert(p < i);
        lemma_chain_walk(s, maze, p);
        let rest = chain(s.nodes, p);
        assert(back =~= seq![s.nodes[i].coord] + rest);
        assert(adj(s.nodes[p].coord, s.nodes[i].coord));
        assert forall|k: int| 0 <= k < back.len() - 1 implies adj(back[k + 1], #[trigger] back[k]) by {
            if k >= 1 {
                assert(adj(rest[k - 1 + 1], rest[k - 1]));
                assert(back[k] == rest[k - 1]);
                assert(back[k + 1] == rest[k]);
            } else {
                assert(back[1] == rest[0]);
            }
        }
        assert(p == 0 || s.nodes[p].coord != maze.start);
        assert forall|k: int| 0 <= k < back.len() implies exists|j: int|
            0 <= j <= i && (#[trigger] s.nodes[j]).coord == #[trigger] back[k] && (k > 0 ==> j < i
                && (j == 0 || s.nodes[j].coord != maze.start)) by {
            if k == 0 {
                assert(s.nodes[i].coord == back[0]);
            } else if k == 1 {
                assert(back[1] == rest[0]);
                assert(s.nodes[p].coord == back[1]);
            } else {
                assert(back[k] == rest[k - 1]);
                let j = choose|j: int|
                    0 <= j <= p && (#[trigger] s.nodes[j]).coord == rest[k - 1] && (k - 1 > 0 ==> j
                        < p && (j == 0 || s.nodes[j].coord != maze.start));
                assert(s.nodes[j].coord == back[k] && j < i);
            }
        }
        if s.nodes[i].coord != maze.start {
            assert(rest.no_duplicates());
            assert forall|k: int, l: int| 0 <= k < back.len() && 0 <= l < back.len() && k
                != l implies back[k] != back[l] by {
                if k >= 1 && l >= 1 {
                    assert(rest[k - 1] != rest[l - 1]);
                } else {
                    let o = if k == 0 {
                        l
                    } else {
                        k
                    };
                    assert(back[o] == rest[o - 1]);
                    let j = choose|j: int|
                        0 <= j < i && (#[trigger] s.nodes[j]).coord == back[o];
                    if j >= 1 {
                        assert(s.nodes[j].coord != s.nodes[i].coord);
                    }
                }
            }
        }
    }
}

/// A walk leads from the start of the maze to every explored cell.
pub proof fn lemma_explored_reached(s: SearchState, maze: &Maze, c: Coord)
    requires
        maze.wf(),
        s.inv(maze),
        maze.explored@.contains(c),
    ensures
        connected(steps(maze.config, maze.walls@), maze.start, c),
{
    reveal(SearchState::inv);
    reveal(SearchState::wf);
    let adj = steps(maze.config, maze.walls@);
    let i = choose|i: int| 0 <= i < s.nodes.len() && (#[trigger] s.nodes[i]).coord == c;
    let back = chain(s.nodes, i);
    lemma_chain_walk(s, maze, i);
    let p = back.reverse();
    assert forall|k: int| 0 <= k < p.len() - 1 implies adj(#[trigger] p[k], p[k + 1]) by {
        let j = back.len() - 2 - k;
        assert(adj(back[j + 1], back[j]));
        assert(p[k] == back[j + 1]);
        assert(p[k + 1] == back[j]);
    }
    assert(is_walk(adj, p));
    assert(p[0] == maze.start && p.last() == c);
}

/// No cell is explored through a standing wall: a cell that a tick marks as
/// explored lies one step from the start or from a cell explored before.
/// The one exception is the start itself, which a search that marks the
/// cell it leaves marks in its first tick.
pub proof fn lemma_explored_beside(
    s: SearchState,
    maze: &Maze,
    after: SearchState,
    result: &Maze,
    r: Result<(), Error>,
    c: Coord,
)
    requires
        maze.wf(),
        s.inv(maze),
        s.shown(maze),
        Search::ticked(s, maze, after, result, r),
        after.nodes.len() <= usize::MAX,
        result.explored@.contains(c),
        !maze.explored@.contains(c),
    ensures
        s.priority.spec_marks_on_arrival() || c != maze.start ==> exists|p: Coord|
            (p == maze.start || maze.explored@.contains(p)) && #[trigger] steps(
                maze.config,
                maze.walls@,
            )(p, c),
{
    let adj = steps(maze.config, maze.walls@);
    let found = s.found(maze);
    let g = s.expanded(found);
    lemma_inv_parts(s, maze);
    lemma_expanded_len(s, found);
    lemma_expanded(s, found);
    lemma_grown_rooted(s, maze);
    lemma_grown_handed(s, maze);
    assert(s.priority.spec_marks_on_arrival() ==> settled(s, maze, s.current as int)) by {
        reveal(SearchState::inv);
    }
    assert(lined_up(g)) by {
        reveal(SearchState::shown);
        lemma_expanded_shown(s, found);
    }
    crate::solver::search::lemma_expanded_keeps(s, found);
    reveal(handed);
    reveal(stepwise);
    if s.priority.spec_marks_on_arrival() {
        let m = g.queue[0].node as int;
        assert(m >= 1);
        assert(m < g.nodes.len()) by {
            lemma_expanded_wf(s, found);
            reveal(SearchState::wf);
        }
        let p = g.nodes[m].previous->0 as int;
        assert(g.nodes[m].previous is Some);
        if p == g.current {
            assert(g.nodes[p] == s.nodes[p]);
        }
        assert(adj(g.nodes[p].coord, c));
        if p == 0 {
            assert(g.nodes[0] == s.nodes[0]);
        }
    } else if c != maze.start {
        let i = s.current as int;
        assert(s.nodes[i].coord == c);
        assert(i >= 1);
        assert(handed(s, maze.explored@, false)) by {
            reveal(SearchState::inv);
        }
        let p = s.nodes[i].previous->0 as int;
        assert(s.nodes[i].previous is Some);
        assert(rooted(s, maze));
        assert(adj(s.nodes[p].coord, c));
    }
}

/// In a maze where no step lies on a loop, no walk from the start to the
/// current cell of a search that has left the start is shorter than the
/// way back from that cell.
pub proof fn lemma_path_shortest(s: SearchState, maze: &Maze, walk: Seq<Coord>)
    requires
        maze.wf(),
        s.inv(maze),
        s.position() != maze.start,
        acyclic(steps(maze.config, maze.walls@)),
        is_walk(steps(maze.config, maze.walls@), walk),
        walk[0] == maze.start,
        walk.last() == s.position(),
    ensures
        chain(s.nodes, s.current as int).len() <= walk.len(),
{
    reveal(SearchState::inv);
    reveal(SearchState::wf);
    let adj = steps(maze.config, maze.walls@);
    let back = chain(s.nodes, s.current as int);
    lemma_chain_walk(s, maze, s.current as int);
    lemma_steps_symmetric(maze.config, maze.walls@);
    let p = back.reverse();
    assert forall|k: int| 0 <= k < p.len() - 1 implies adj(#[trigger] p[k], p[k + 1]) by {
        let j = back.len() - 2 - k;
        assert(adj(back[j + 1], back[j]));
        assert(p[k] == back[j + 1]);
        assert(p[k + 1] == back[j]);
    }
    assert(p.no_duplicates()) by {
        assert forall|k: int, l: int| 0 <= k < p.len() && 0 <= l < p.len() && k != l implies p[k]
            != p[l] by {
            assert(back[back.len() - 1 - k] != back[back.len() - 1 - l]);
        }
    }
    assert(p[0] == maze.start && p.last() == s.position());
    lemma_simple_walk_shortest(adj, p, walk);
}

/// The cells that wait to be visited.
pub open spec fn frontier(s: SearchState) -> Set<Coord> {
    Set::new(|c: Coord| queued(s.nodes, s.queue, c))
}

/// No node waits in the queue twice, and the first node does not wait.
pub open spec fn lined_up(s: SearchState) -> bool {
    &&& forall|k: int, l: int|
        0 <= k < l < s.queue.len() ==> (#[trigger] s.queue[k]).node != (#[trigger] s.queue[l]).node
    &&& forall|k: int| 0 <= k < s.queue.len() ==> (#[trigger] s.queue[k]).node >= 1
}

impl SearchState {
    /// What the marks show between the ticks of a search on a maze that
    /// nothing else changes: the dark marks are on the cells that wait to be
    /// visited, each of which waits once.
    #[verifier::opaque]
    pub open spec fn shown(self, maze: &Maze) -> bool {
        &&& lined_up(self)
        &&& maze.highlight_dark@ == frontier(self)
    }
}

/// A search about to begin on a maze without dark marks shows its empty
/// queue.
pub proof fn lemma_shown_at_start(maze: &Maze, priority: Priority)
    requires
        maze.highlight_dark@ == Set::<Coord>::empty(),
    ensures
        SearchState::at_start(maze, priority).shown(maze),
{
    reveal(SearchState::shown);
    assert(frontier(SearchState::at_start(maze, priority)) =~= Set::<Coord>::empty());
}

/// What the marks show depends on the dark marks alone.
pub proof fn lemma_shown_frame(s: SearchState, maze: &Maze, other: &Maze)
    requires
        s.shown(maze),
        other.highlight_dark@ == maze.highlight_dark@,
    ensures
        s.shown(other),
{
    reveal(SearchState::shown);
}

/// After a search has found a cell that was no node before, the cell waits
/// beside the cells that waited before, each of them once.
pub proof fn lemma_grown_shown(s: SearchState, c: Coord)
    requires
        s.wf(),
        lined_up(s),
        s.nodes.len() < usize::MAX,
    ensures
        lined_up(s.grown(c)),
        frontier(s.grown(c)) == frontier(s).insert(c),
{
    reveal(SearchState::wf);
    let g = s.grown(c);
    let e = Entry { key: s.key_of(c), node: s.nodes.len() as usize };
    let p = rank(s.queue, e.key);
    lemma_rank_bounds(s.queue, e.key);
    s.queue.insert_ensures(p, e);
    assert forall|k: int, l: int| 0 <= k < l < g.queue.len() implies (#[trigger] g.queue[k]).node
        != (#[trigger] g.queue[l]).node by {
        let a = if k < p {
            k
        } else {
            k - 1
        };
        let b = if l < p {
            l
        } else {
            l - 1
        };
        if k != p {
            assert(g.queue[k] == s.queue[a]);
            assert(s.queue[a].node < s.nodes.len());
        }
        if l != p {
            assert(g.queue[l] == s.queue[b]);
            assert(s.queue[b].node < s.nodes.len());
        }
        if k != p && l != p {
            assert(s.queue[a].node != s.queue[b].node);
        }
    }
    assert forall|k: int| 0 <= k < g.queue.len() implies (#[trigger] g.queue[k]).node >= 1 by {
        if k < p {
            assert(g.queue[k] == s.queue[k]);
        } else if k > p {
            assert(g.queue[k] == s.queue[k - 1]);
        }
    }
    assert forall|x: Coord| frontier(g).contains(x) <==> frontier(s).insert(c).contains(x) by {
        if queued(g.nodes, g.queue, x) {
            let k = choose|k: int|
                0 <= k < g.queue.len() && g.nodes[(#[trigger] g.queue[k]).node as int].coord == x;
            if k < p {
                assert(g.queue[k] == s.queue[k]);
                assert(s.queue[k].node < s.nodes.len());
                assert(s.nodes[s.queue[k].node as int].coord == x);
            } else if k > p {
                assert(g.queue[k] == s.queue[k - 1]);
                assert(s.queue[k - 1].node < s.nodes.len());
                assert(s.nodes[s.queue[k - 1].node as int].coord == x);
            }
        }
        if queued(s.nodes, s.queue, x) {
            let k = choose|k: int|
                0 <= k < s.queue.len() && s.nodes[(#[trigger] s.queue[k]).node as int].coord == x;
            assert(s.queue[k].node < s.nodes.len());
            let k1 = if k < p {
                k
            } else {
                k + 1
            };
            assert(g.queue[k1] == s.queue[k]);
            assert(g.nodes[g.queue[k1].node as int].coord == x);
        }
        if x == c {
            assert(g.queue[p] == e);
            assert(g.nodes[g.queue[p].node as int].coord == c);
        }
    }
    assert(frontier(g) =~= frontier(s).insert(c));
}

/// A well-formed search stays well formed when it finds a cell.
pub proof fn lemma_grown_wf(s: SearchState, c: Coord)
    requires
        s.wf(),
        s.nodes.len() < usize::MAX,
    ensures
        s.grown(c).wf(),
{
    reveal(SearchState::wf);
    let g = s.grown(c);
    let e = Entry { key: s.key_of(c), node: s.nodes.len() as usize };
    let p = rank(s.queue, e.key);
    crate::solver::search::lemma_enqueued_sorted(s.queue, e);
    s.queue.insert_ensures(p, e);
    crate::solver::trail::lemma_chain_len(s.nodes, s.current as int);
    assert forall|i: int| 0 <= i < g.queue.len() implies (#[trigger] g.queue[i]).node
        < g.nodes.len() by {
        if i < p {
            assert(g.queue[i] == s.queue[i]);
        } else if i > p {
            assert(g.queue[i] == s.queue[i - 1]);
        }
    }
}

/// After a search has found the cells of a list that were no nodes before,
/// they wait beside the cells that waited before, each of them once.
pub proof fn lemma_expanded_shown(s: SearchState, cells: Seq<(Coord, Direction)>)
    requires
        s.wf(),
        lined_up(s),
        s.nodes.len() + cells.len() <= usize::MAX,
    ensures
        lined_up(s.expanded(cells)),
        frontier(s.expanded(cells)) == frontier(s).union(cells_of(cells)),
    decreases cells.len(),
{
    if cells.len() == 0 {
        assert(cells_of(cells) =~= Set::<Coord>::empty());
        assert(frontier(s).union(cells_of(cells)) =~= frontier(s));
    } else {
        let g = s.grown(cells[0].0);
        let rest = cells.drop_first();
        lemma_grown_shown(s, cells[0].0);
        lemma_grown_wf(s, cells[0].0);
        lemma_expanded_shown(g, rest);
        assert forall|x: Coord|
            cells_of(cells).contains(x) <==> x == cells[0].0 || cells_of(rest).contains(x) by {
            if cells_of(cells).contains(x) {
                let i = choose|i: int| 0 <= i < cells.len() && (#[trigger] cells[i]).0 == x;
                if i > 0 {
                    assert(rest[i - 1].0 == x);
                }
            }
            if cells_of(rest).contains(x) {
                let i = choose|i: int| 0 <= i < rest.len() && (#[trigger] rest[i]).0 == x;
                assert(cells[i + 1].0 == x);
            }
            if x == cells[0].0 {
                assert(cells[0].0 == x);
            }
        }
        assert(frontier(s).insert(cells[0].0).union(cells_of(rest)) =~= frontier(s).union(
            cells_of(cells),
        ));
    }
}

/// When a search moves on to the first node of its queue, the cell of that
/// node waits no longer, and the others wait as before.
pub proof fn lemma_moved_shown(g: SearchState, maze: &Maze)
    requires
        g.wf(),
        rooted(g, maze),
        lined_up(g),
        g.queue.len() > 0,
    ensures
        lined_up(g.moved()),
        frontier(g.moved()) == frontier(g).remove(g.moved().position()),
{
    reveal(SearchState::wf);
    reveal(apart);
    let next = g.moved();
    let m = g.queue[0].node as int;
    assert(m < g.nodes.len());
    assert forall|k: int, l: int| 0 <= k < l < next.queue.len() implies (
    #[trigger] next.queue[k]).node != (#[trigger] next.queue[l]).node by {
        assert(next.queue[k] == g.queue[k + 1]);
        assert(next.queue[l] == g.queue[l + 1]);
        assert(g.queue[k + 1].node != g.queue[l + 1].node);
    }
    assert forall|k: int| 0 <= k < next.queue.len() implies (#[trigger] next.queue[k]).node >= 1 by {
        assert(next.queue[k] == g.queue[k + 1]);
    }
    assert(m >= 1);
    assert forall|x: Coord| frontier(next).contains(x) <==> frontier(g).remove(
        next.position(),
    ).contains(x) by {
        if queued(next.nodes, next.queue, x) {
            let k = choose|k: int|
                0 <= k < next.queue.len() && next.nodes[(#[trigger] next.queue[k]).node as int].coord
                    == x;
            assert(next.queue[k] == g.queue[k + 1]);
            assert(g.nodes[g.queue[k + 1].node as int].coord == x);
            let i = g.queue[k + 1].node as int;
            assert(i < g.nodes.len());
            assert(g.queue[0].node != g.queue[k + 1].node);
            if i < m {
                assert(g.nodes[i].coord != g.nodes[m].coord);
            } else {
                assert(g.nodes[m].coord != g.nodes[i].coord);
            }
        }
        if queued(g.nodes, g.queue, x) && x != next.position() {
            let k = choose|k: int|
                0 <= k < g.queue.len() && g.nodes[(#[trigger] g.queue[k]).node as int].coord == x;
            assert(k >= 1);
            assert(next.queue[k - 1] == g.queue[k]);
            assert(next.nodes[next.queue[k - 1].node as int].coord == x);
        }
    }
    assert(frontier(next) =~= frontier(g).remove(next.position()));
}

/// A tick of a search that is not at its goal, and does not fail, leaves
/// the dark marks on the cells that wait to be visited.
pub proof fn lemma_tick_shown(
    s: SearchState,
    maze: &Maze,
    after: SearchState,
    result: &Maze,
    r: Result<(), Error>,
)
    requires
        maze.wf(),
        s.inv(maze),
        s.shown(maze),
        s.position() != s.goal,
        Search::ticked(s, maze, after, result, r),
        after.nodes.len() <= usize::MAX,
    ensures
        r is Ok ==> after.shown(result),
{
    reveal(SearchState::shown);
    let found = s.found(maze);
    let g = s.expanded(found);
    lemma_expanded_len(s, found);
    assert(s.wf()) by {
        reveal(SearchState::inv);
    }
    lemma_expanded_shown(s, found);
    if g.queue.len() > 0 {
        lemma_grown_rooted(s, maze);
        lemma_expanded_wf(s, found);
        lemma_moved_shown(g, maze);
    }
}

/// A well-formed search stays well formed when it finds the cells of a
/// list.
pub proof fn lemma_expanded_wf(s: SearchState, cells: Seq<(Coord, Direction)>)
    requires
        s.wf(),
        s.nodes.len() + cells.len() <= usize::MAX,
    ensures
        s.expanded(cells).wf(),
    decreases cells.len(),
{
    if cells.len() > 0 {
        lemma_grown_wf(s, cells[0].0);
        lemma_expanded_wf(s.grown(cells[0].0), cells.drop_first());
    }
}

} // verus!
