use vstd::prelude::*;
use crate::error::Error;
use crate::maze::{lemma_filter_push, Coord, Direction, Maze, Wall};
use crate::sets::CoordSet;
use crate::passages::steps;
use crate::solver::trail::{chain, linked, PathNode, Trail};
use crate::solver::Solver;

verus! {

/// A node that waits to be visited, with the key it waits under.
#[derive(Debug, Clone, Copy, PartialEq, Eq, Structural)]
pub struct Entry {
    pub key: u128,
    pub node: usize,
}

/// The order in which a search visits the cells it has found.
#[derive(Debug, Clone, Copy, PartialEq, Eq, Structural)]
pub enum Priority {
    /// As found: a breadth-first search.
    Arrival,
    /// Nearest to the start first: Dijkstra's algorithm.
    Distance,
    /// Nearest to the goal first, as the crow flies: a greedy search.
    Heuristic,
    /// By the sum of both: A*.
    Both,
}

impl Priority {
    /// A breadth-first search marks a cell explored when it moves on to it;
    /// the other searches mark a cell when they look around from it.
    pub open spec fn spec_marks_on_arrival(self) -> bool {
        self is Arrival
    }

    /// Tells when a search in this order marks a cell explored.
    #[verifier::when_used_as_spec(spec_marks_on_arrival)]
    pub fn marks_on_arrival(self) -> (r: bool)
        ensures
            r == self.spec_marks_on_arrival(),
    {
        match self {
            Priority::Arrival => true,
            _ => false,
        }
    }
}

/// What a search knows between two ticks.
pub struct SearchState {
    /// The cells reached, each linked to the one it was reached from.
    pub nodes: Seq<PathNode>,
    /// The index of the node the search stands on.
    pub current: usize,
    pub goal: Coord,
    /// The nodes that wait to be visited, the next one first.
    pub queue: Seq<Entry>,
    pub priority: Priority,
}

/// The keys never fall along the queue.
pub open spec fn sorted(q: Seq<Entry>) -> bool {
    forall|i: int, j: int| 0 <= i <= j < q.len() ==> (#[trigger] q[i]).key <= (#[trigger] q[j]).key
}

/// The number of entries at the head of the queue whose key is at most
/// `key`.
pub open spec fn rank(q: Seq<Entry>, key: u128) -> int
    decreases q.len(),
{
    if q.len() == 0 {
        0
    } else if q[0].key <= key {
        1 + rank(q.drop_first(), key)
    } else {
        0
    }
}

/// In a sorted queue the rank of a key is the place where the greater keys
/// begin.
pub proof fn lemma_rank(q: Seq<Entry>, key: u128, p: int)
    requires
        sorted(q),
        0 <= p <= q.len(),
        forall|i: int| 0 <= i < p ==> (#[trigger] q[i]).key <= key,
        p < q.len() ==> q[p].key > key,
    ensures
        rank(q, key) == p,
    decreases q.len(),
{
    if q.len() > 0 {
        if p == 0 {
        } else {
            assert(q[0].key <= key);
            let rest = q.drop_first();
            assert forall|i: int, j: int| 0 <= i <= j < rest.len() implies rest[i].key
                <= rest[j].key by {
                assert(q[i + 1].key <= q[j + 1].key);
            }
            assert forall|i: int| 0 <= i < p - 1 implies (#[trigger] rest[i]).key <= key by {
                assert(q[i + 1].key <= key);
            }
            lemma_rank(rest, key, p - 1);
        }
    }
}

/// The queue with one more entry, behind the entries with the same key.
pub open spec fn enqueued(q: Seq<Entry>, e: Entry) -> Seq<Entry> {
    q.insert(rank(q, e.key), e)
}

/// The rank of a key lies within the queue, and a sorted queue stays sorted
/// when an entry is put at the rank of its key.
pub proof fn lemma_enqueued_sorted(q: Seq<Entry>, e: Entry)
    requires
        sorted(q),
    ensures
        0 <= rank(q, e.key) <= q.len(),
        sorted(enqueued(q, e)),
        forall|i: int| 0 <= i < rank(q, e.key) ==> (#[trigger] q[i]).key <= e.key,
        rank(q, e.key) < q.len() ==> q[rank(q, e.key)].key > e.key,
    decreases q.len(),
{
    if q.len() > 0 && q[0].key <= e.key {
        let rest = q.drop_first();
        assert forall|i: int, j: int| 0 <= i <= j < rest.len() implies rest[i].key
            <= rest[j].key by {
            assert(q[i + 1].key <= q[j + 1].key);
        }
        lemma_enqueued_sorted(rest, e);
        let p = rank(q, e.key);
        assert forall|i: int| 0 <= i < p implies (#[trigger] q[i]).key <= e.key by {
            if i > 0 {
                assert(rest[i - 1].key <= e.key);
            }
        }
        if p < q.len() {
            assert(q[p] == rest[p - 1]);
        }
    }
    let p = rank(q, e.key);
    let r = enqueued(q, e);
    q.insert_ensures(p, e);
    assert forall|i: int, j: int| 0 <= i <= j < r.len() implies r[i].key <= r[j].key by {
        let a = if i < p {
            i
        } else {
            i - 1
        };
        let b = if j < p {
            j
        } else {
            j - 1
        };
        if i != p {
            assert(r[i] == q[a]);
        }
        if j != p {
            assert(r[j] == q[b]);
        }
        if i != p && j != p {
            assert(q[a].key <= q[b].key);
        } else if i == p && j != p {
            assert(q[p].key <= q[b].key);
        }
    }
}

/// A node of the cell `c` waits in the queue.
pub open spec fn queued(nodes: Seq<PathNode>, q: Seq<Entry>, c: Coord) -> bool {
    exists|i: int| 0 <= i < q.len() && nodes[(#[trigger] q[i]).node as int].coord == c
}

impl SearchState {
    /// A search that stands on the start of the maze and has found nothing
    /// yet.
    pub open spec fn at_start(maze: &Maze, priority: Priority) -> SearchState {
        SearchState {
            nodes: seq![PathNode { coord: maze.start, dist: 0, previous: None }],
            current: 0,
            goal: maze.end,
            queue: Seq::<Entry>::empty(),
            priority,
        }
    }

    /// The cell the search stands on.
    pub open spec fn position(self) -> Coord {
        self.nodes[self.current as int].coord
    }

    /// The nodes link back to the root, the search stands on one of them,
    /// only nodes wait in the queue, and the queue is sorted.
    #[verifier::opaque]
    pub open spec fn wf(self) -> bool {
        &&& linked(self.nodes)
        &&& self.current < self.nodes.len()
        &&& forall|i: int| 0 <= i < self.queue.len() ==> (#[trigger] self.queue[i]).node
            < self.nodes.len()
        &&& sorted(self.queue)
    }

    /// The key under which a cell found from the current one waits.
    pub open spec fn key_of(self, c: Coord) -> u128 {
        let dist = self.nodes[self.current as int].dist + 1;
        let ahead = self.goal.spec_manhattan_dist(c);
        (match self.priority {
            Priority::Arrival => 0,
            Priority::Distance => dist,
            Priority::Heuristic => ahead,
            Priority::Both => dist + ahead,
        }) as u128
    }

    /// The test for a neighbour to be found now: it is not explored and it
    /// does not wait already.
    pub open spec fn is_new(self, maze: &Maze) -> spec_fn((Coord, Direction)) -> bool {
        |n: (Coord, Direction)|
            !maze.explored@.contains(n.0) && !queued(self.nodes, self.queue, n.0)
    }

    /// The explored cells once the search has looked around: a search that
    /// marks on arrival has marked nothing yet, any other search has marked
    /// the cell it stands on.
    pub open spec fn seen(self, maze: &Maze) -> Set<Coord> {
        if self.priority.spec_marks_on_arrival() {
            maze.explored@
        } else {
            maze.explored@.insert(self.position())
        }
    }

    /// The explored cells once the search has moved on to the cell `next`:
    /// a search that marks on arrival marks that cell.
    pub open spec fn seen_at(self, maze: &Maze, next: Coord) -> Set<Coord> {
        if self.priority.spec_marks_on_arrival() {
            maze.explored@.insert(next)
        } else {
            maze.explored@.insert(self.position())
        }
    }

    /// The cells found from the current one: none at the end of the maze,
    /// and elsewhere the new ones among the neighbours that no wall
    /// separates from it.
    pub open spec fn found(self, maze: &Maze) -> Seq<(Coord, Direction)> {
        if maze.end == self.position() {
            Seq::empty()
        } else {
            maze.spec_connected_neighbours(self.position()).filter(self.is_new(maze))
        }
    }

    /// The search with one more cell found from the current one.
    pub open spec fn grown(self, c: Coord) -> SearchState {
        SearchState {
            nodes: self.nodes.push(
                PathNode {
                    coord: c,
                    dist: (self.nodes[self.current as int].dist + 1) as u64,
                    previous: Some(self.current),
                },
            ),
            queue: enqueued(self.queue, Entry { key: self.key_of(c), node: self.nodes.len() as usize }),
            ..self
        }
    }

    /// The search with the cells of a list found from the current one, one
    /// after the other.
    pub open spec fn expanded(self, cells: Seq<(Coord, Direction)>) -> SearchState
        decreases cells.len(),
    {
        if cells.len() == 0 {
            self
        } else {
            self.grown(cells[0].0).expanded(cells.drop_first())
        }
    }

    /// The search after it has moved on to the first node of the queue.
    pub open spec fn moved(self) -> SearchState {
        SearchState { current: self.queue[0].node, queue: self.queue.drop_first(), ..self }
    }
}

/// The cells of a list.
pub open spec fn cells_of(list: Seq<(Coord, Direction)>) -> Set<Coord> {
    Set::new(|c: Coord| exists|i: int| 0 <= i < list.len() && (#[trigger] list[i]).0 == c)
}

/// A search from the start of a maze to its end that visits the cells it
/// has found in the order of their keys.
#[derive(Debug)]
pub struct Search {
    trail: Trail,
    current: usize,
    goal: Coord,
    queue: Vec<Entry>,
    priority: Priority,
}

impl View for Search {
    type V = SearchState;

    closed spec fn view(&self) -> SearchState {
        SearchState {
            nodes: self.trail@,
            current: self.current,
            goal: self.goal,
            queue: self.queue@,
            priority: self.priority,
        }
    }
}

impl Search {
    /// The state is well formed and the goal has no negative coordinate.
    pub open spec fn wf(&self) -> bool {
        &&& self@.wf()
        &&& self@.goal.x >= 0
        &&& self@.goal.y >= 0
    }

    /// What a tick does. A search that stands on the goal stays as it is.
    /// Any other search adds the cells found from the current one to the
    /// queue and to the dark marks, and fails if the queue is empty then;
    /// else it moves on to the first node of the queue, which is bright
    /// now, and the medium marks show the way back to the start. A
    /// breadth-first search marks the cell it moves on to as explored, and
    /// nothing where it fails; the other searches mark the cell they looked
    /// around from.
    pub open spec fn ticked(
        before: SearchState,
        maze: &Maze,
        after: SearchState,
        result: &Maze,
        r: Result<(), Error>,
    ) -> bool {
        if before.position() == before.goal {
            &&& r is Ok
            &&& after == before
            &&& result.same_marks(maze)
        } else {
            let found = before.found(maze);
            let grown = before.expanded(found);
            let waiting = maze.highlight_dark@.union(cells_of(found));
            if grown.queue.len() == 0 {
                &&& r == Err::<(), Error>(Error::ImpossibleMaze)
                &&& after == grown
                &&& result.explored@ == before.seen(maze)
                &&& result.highlight_bright@ == Set::<Coord>::empty()
                &&& result.highlight_medium@ == maze.highlight_medium@
                &&& result.highlight_dark@ == waiting
            } else {
                let next = grown.moved();
                &&& r is Ok
                &&& after == next
                &&& result.explored@ == before.seen_at(maze, next.position())
                &&& result.highlight_bright@ == Set::<Coord>::empty().insert(next.position())
                &&& result.highlight_medium@ == chain(next.nodes, next.current as int).to_set()
                &&& result.highlight_dark@ == waiting.remove(next.position())
            }
        }
    }

    /// A tick is a function of the search and the maze: what it comes to
    /// once, it comes to again.
    pub proof fn lemma_tick_repeats(
        before: SearchState,
        maze: &Maze,
        first: (SearchState, &Maze, Result<(), Error>),
        second: (SearchState, &Maze, Result<(), Error>),
    )
        requires
            Search::ticked(before, maze, first.0, first.1, first.2),
            Search::ticked(before, maze, second.0, second.1, second.2),
        ensures
            first.0 == second.0,
            first.1.same_marks(second.1),
            first.2 == second.2,
    {
        if first.2 is Ok && second.2 is Ok {
            assert(first.2->Ok_0 == second.2->Ok_0);
        }
    }

    /// In a maze with every wall standing, the first tick of a search
    /// fails: no cell is left to visit.
    pub proof fn lemma_walled_in(
        before: SearchState,
        maze: &Maze,
        after: SearchState,
        result: &Maze,
        r: Result<(), Error>,
    )
        requires
            forall|w: Wall| #[trigger] maze.config.is_wall(w) ==> maze.walls@.contains(w),
            before.queue.len() == 0,
            before.position() != before.goal,
            Search::ticked(before, maze, after, result, r),
        ensures
            r == Err::<(), Error>(Error::ImpossibleMaze),
    {
        reveal(Seq::filter);
        crate::passages::lemma_walled_in(maze, before.position());
    }

    /// A search that stands on the start of the maze and has found nothing
    /// yet.
    pub fn new(maze: &Maze, priority: Priority) -> (s: Search)
        requires
            maze.wf(),
        ensures
            s.wf(),
            s@ == SearchState::at_start(maze, priority),
            maze.explored@ == Set::<Coord>::empty() ==> s@.inv(maze),
    {
        reveal(SearchState::wf);
        proof {
            if maze.explored@ == Set::<Coord>::empty() {
                crate::solver::shortest::lemma_inv_at_start(maze, priority);
            }
        }
        Search {
            trail: Trail::new(maze.start),
            current: 0,
            goal: maze.end,
            queue: Vec::new(),
            priority,
        }
    }

    /// There are no more nodes than the machine can count.
    pub proof fn lemma_node_bound(&self)
        ensures
            self@.nodes.len() <= usize::MAX,
    {
        self.trail.lemma_len_bound();
    }

    /// The cell the search stands on.
    pub fn position(&self) -> (r: Coord)
        requires
            self.wf(),
        ensures
            r == self@.position(),
    {
        reveal(SearchState::wf);
        self.trail.node(self.current).coord
    }

    /// The cells on the way from the current cell back to the start.
    pub fn path(&self) -> (r: Vec<Coord>)
        requires
            self.wf(),
        ensures
            r@ == chain(self@.nodes, self@.current as int),
            r@.len() > 0,
            r@[0] == self@.position(),
    {
        proof {
            reveal(SearchState::wf);
            lemma_path_head(self@);
        }
        self.trail.path(self.current)
    }

    /// Tells whether the search stands on the goal.
    pub fn is_done(&self) -> (r: bool)
        requires
            self.wf(),
        ensures
            r == (self@.position() == self@.goal),
    {
        self.goal == self.position()
    }

    /// The distance to the goal as the crow flies on a grid.
    pub fn heuristic(&self, coord: &Coord) -> (r: u32)
        requires
            self.wf(),
            coord.x >= 0,
            coord.y >= 0,
        ensures
            r == self@.goal.spec_manhattan_dist(*coord),
    {
        self.goal.manhattan_dist(coord)
    }

    fn key_for(&self, coord: &Coord) -> (r: u128)
        requires
            self.wf(),
            coord.x >= 0,
            coord.y >= 0,
        ensures
            r == self@.key_of(*coord),
    {
        reveal(SearchState::wf);
        let dist: u128 = self.trail.node(self.current).dist as u128 + 1;
        match self.priority {
            Priority::Arrival => 0,
            Priority::Distance => dist,
            Priority::Heuristic => self.heuristic(coord) as u128,
            Priority::Both => dist + self.heuristic(coord) as u128,
        }
    }

    fn is_queued(&self, coord: &Coord) -> (r: bool)
        requires
            self.wf(),
        ensures
            r == queued(self@.nodes, self@.queue, *coord),
    {
        reveal(SearchState::wf);
        let mut i: usize = 0;
        while i < self.queue.len()
            invariant
                i <= self.queue.len(),
                self@.wf(),
                forall|i: int| 0 <= i < self@.queue.len() ==> (#[trigger] self@.queue[i]).node
                    < self@.nodes.len(),
                forall|j: int|
                    0 <= j < i ==> self@.nodes[(#[trigger] self@.queue[j]).node as int].coord
                        != *coord,
            decreases self.queue.len() - i,
        {
            let entry = self.queue[i];
            assert(self@.queue[i as int].node < self@.nodes.len());
            if self.trail.node(entry.node).coord == *coord {
                return true;
            }
            i += 1;
        }
        false
    }

    /// The cells found from the current one.
    pub fn available_neighbours(&self, maze: &Maze) -> (r: Vec<(Coord, Direction)>)
        requires
            self.wf(),
            maze.wf(),
        ensures
            r@ == self@.found(maze),
    {
        let mut fresh: Vec<(Coord, Direction)> = Vec::new();
        let position = self.position();
        if maze.end == position {
            return fresh;
        }
        let around = maze.connected_neighbours(&position);
        let ghost keep = self@.is_new(maze);
        let mut i: usize = 0;
        while i < around.len()
            invariant
                i <= around.len(),
                self.wf(),
                position == self@.position(),
                keep == self@.is_new(maze),
                fresh@ == around@.take(i as int).filter(keep),
            decreases around.len() - i,
        {
            let entry = around[i];
            proof {
                assert(around@.take(i + 1) == around@.take(i as int).push(entry));
                lemma_filter_push(around@.take(i as int), keep, entry);
            }
            if !maze.explored.contains(&entry.0) && !self.is_queued(&entry.0) {
                fresh.push(entry);
            }
            i += 1;
        }
        assert(around@.take(around.len() as int) == around@);
        fresh
    }

    fn enqueue(&mut self, entry: Entry)
        requires
            old(self).wf(),
            entry.node < old(self)@.nodes.len(),
        ensures
            final(self).wf(),
            final(self)@ == (SearchState { queue: enqueued(old(self)@.queue, entry), ..old(self)@ }),
    {
        reveal(SearchState::wf);
        let mut low: usize = 0;
        let mut high: usize = self.queue.len();
        while low < high
            invariant
                low <= high <= self.queue.len(),
                *self == *old(self),
                sorted(self.queue@),
                forall|i: int| 0 <= i < low ==> (#[trigger] self.queue@[i]).key <= entry.key,
                forall|i: int|
                    high <= i < self.queue@.len() ==> (#[trigger] self.queue@[i]).key > entry.key,
            decreases high - low,
        {
            let middle = low + (high - low) / 2;
            if self.queue[middle].key <= entry.key {
                assert forall|i: int| 0 <= i < middle + 1 implies (#[trigger] self.queue@[i]).key
                    <= entry.key by {
                    assert(self.queue@[i].key <= self.queue@[middle as int].key);
                }
                low = middle + 1;
            } else {
                assert forall|i: int| middle <= i < self.queue@.len() implies (
                #[trigger] self.queue@[i]).key > entry.key by {
                    assert(self.queue@[middle as int].key <= self.queue@[i].key);
                }
                high = middle;
            }
        }
        proof {
            lemma_rank(self.queue@, entry.key, low as int);
            lemma_enqueued_sorted(self.queue@, entry);
            self.queue@.insert_ensures(low as int, entry);
        }
        self.queue.insert(low, entry);
        proof {
            assert forall|i: int| 0 <= i < self.queue@.len() implies (#[trigger] self.queue@[i]).node
                < self@.nodes.len() by {
                if i < low {
                    assert(self.queue@[i] == old(self).queue@[i]);
                } else if i > low {
                    assert(self.queue@[i] == old(self).queue@[i - 1]);
                }
            }
        }
    }

    /// One tick: the cells found from the current one join the queue, and
    /// the search moves on to the first node of the queue. It fails where
    /// the queue is empty.
    pub fn tick(&mut self, maze: &mut Maze) -> (r: Result<(), Error>)
        requires
            old(self).wf(),
            old(maze).wf(),
        ensures
            final(self).wf(),
            final(maze).same_grid(old(maze)),
            final(maze).walls@ == old(maze).walls@,
            old(self)@.position() == old(self)@.goal ==> *final(self) == *old(self),
            Search::ticked(old(self)@, old(maze), final(self)@, final(maze), r),
    {
        if self.is_done() {
            return Ok(());
        }
        let around = self.available_neighbours(maze);
        maze.highlight_bright.clear();
        let on_arrival = self.priority.marks_on_arrival();
        if !on_arrival {
            let position = self.position();
            maze.explored.insert(position);
        }
        proof {
            assert forall|i: int| 0 <= i < around@.len() implies (#[trigger] around@[i]).0.x >= 0
                && around@[i].0.y >= 0 by {
                lemma_found_valid(old(self)@, old(maze), i);
            }
        }
        self.expand(&around, &mut maze.highlight_dark);

        if self.queue.len() == 0 {
            return Err(Error::ImpossibleMaze);
        }
        self.move_on();
        let coord = self.position();
        maze.highlight_dark.remove(&coord);
        if on_arrival {
            maze.explored.insert(coord);
        }
        maze.highlight_bright.insert(coord);
        proof {
            reveal(SearchState::wf);
        }
        self.trail.highlight_path(self.current, &mut maze.highlight_medium);
        Ok(())
    }

    fn grow(&mut self, neighbour: Coord)
        requires
            old(self).wf(),
            neighbour.x >= 0,
            neighbour.y >= 0,
        ensures
            final(self).wf(),
            final(self)@ == old(self)@.grown(neighbour),
    {
        let key = self.key_for(&neighbour);
        let node = self.extend(neighbour);
        self.enqueue(Entry { key, node });
    }

    fn extend(&mut self, neighbour: Coord) -> (node: usize)
        requires
            old(self).wf(),
        ensures
            final(self).wf(),
            node == old(self)@.nodes.len(),
            final(self)@ == (SearchState {
                nodes: old(self)@.nodes.push(
                    PathNode {
                        coord: neighbour,
                        dist: (old(self)@.nodes[old(self)@.current as int].dist + 1) as u64,
                        previous: Some(old(self)@.current),
                    },
                ),
                ..old(self)@
            }),
    {
        proof {
            reveal(SearchState::wf);
        }
        let node = self.trail.extend(neighbour, self.current);
        proof {
            lemma_wf_push(old(self)@, self@.nodes.last());
        }
        node
    }

    fn expand(&mut self, around: &Vec<(Coord, Direction)>, marks: &mut CoordSet)
        requires
            old(self).wf(),
            forall|i: int|
                0 <= i < around@.len() ==> (#[trigger] around@[i]).0.x >= 0 && around@[i].0.y >= 0,
        ensures
            final(self).wf(),
            final(self)@ == old(self)@.expanded(around@),
            final(marks)@ == old(marks)@.union(cells_of(around@)),
    {
        let mut i: usize = 0;
        assert(around@.skip(0) == around@);
        assert(marks@ =~= old(marks)@.union(cells_of(around@.take(0))));
        while i < around.len()
            invariant
                i <= around.len(),
                self.wf(),
                forall|i: int|
                    0 <= i < around@.len() ==> (#[trigger] around@[i]).0.x >= 0 && around@[i].0.y
                        >= 0,
                marks@ == old(marks)@.union(cells_of(around@.take(i as int))),
                old(self)@.expanded(around@) == self@.expanded(around@.skip(i as int)),
            decreases around.len() - i,
        {
            let (neighbour, _) = around[i];
            assert(around@[i as int].0.x >= 0);
            let ghost before = self@;
            self.grow(neighbour);
            marks.insert(neighbour);
            proof {
                assert(around@.skip(i as int).drop_first() == around@.skip(i + 1));
                assert(around@.skip(i as int)[0] == around@[i as int]);
                assert(before.expanded(around@.skip(i as int)) == before.grown(
                    neighbour,
                ).expanded(around@.skip(i + 1)));
                lemma_cells_of_push(around@, i as int);
                assert(marks@ =~= old(marks)@.union(cells_of(around@.take(i + 1))));
            }
            i += 1;
        }
        assert(around@.take(around.len() as int) == around@);
    }

    fn move_on(&mut self)
        requires
            old(self).wf(),
            old(self)@.queue.len() > 0,
        ensures
            final(self).wf(),
            final(self)@ == old(self)@.moved(),
    {
        reveal(SearchState::wf);
        let first = self.queue.remove(0);
        assert(old(self)@.queue[0].node < old(self)@.nodes.len());
        self.current = first.node;
        proof {
            assert(self.queue@ =~= old(self)@.queue.drop_first());
            assert forall|i: int| 0 <= i < self@.queue.len() implies (#[trigger] self@.queue[i]).node
                < self@.nodes.len() by {
                assert(self@.queue[i] == old(self)@.queue[i + 1]);
            }
            assert forall|i: int, j: int| 0 <= i <= j < self@.queue.len() implies (
            #[trigger] self@.queue[i]).key <= (#[trigger] self@.queue[j]).key by {
                assert(old(self)@.queue[i + 1].key <= old(self)@.queue[j + 1].key);
            }
        }
    }
}

/// The cells of the first `i + 1` entries of a list are the cells of the
/// first `i` entries and the cell of the next.
pub proof fn lemma_cells_of_push(list: Seq<(Coord, Direction)>, i: int)
    requires
        0 <= i < list.len(),
    ensures
        cells_of(list.take(i + 1)) == cells_of(list.take(i)).insert(list[i].0),
{
    let before = list.take(i);
    let after = list.take(i + 1);
    assert forall|c: Coord|
        cells_of(after).contains(c) <==> cells_of(before).insert(list[i].0).contains(c) by {
        if cells_of(after).contains(c) {
            let j = choose|j: int| 0 <= j < after.len() && (#[trigger] after[j]).0 == c;
            if j < i {
                assert(before[j].0 == c);
            }
        }
        if cells_of(before).contains(c) {
            let j = choose|j: int| 0 <= j < before.len() && (#[trigger] before[j]).0 == c;
            assert(after[j].0 == c);
        }
        if c == list[i].0 {
            assert(after[i].0 == c);
        }
    }
    assert(cells_of(after) =~= cells_of(before).insert(list[i].0));
}

/// The cells found from the current one are cells of the grid.
pub proof fn lemma_found_valid(s: SearchState, maze: &Maze, i: int)
    requires
        0 <= i < s.found(maze).len(),
    ensures
        s.found(maze)[i].0.spec_valid_coord(maze.config.width, maze.config.height),
{
    let around = maze.spec_connected_neighbours(s.position());
    let e = s.found(maze)[i];
    assert(s.found(maze).contains(e));
    around.lemma_filter_contains_rev(s.is_new(maze), e);
    let all = s.position().spec_neighbours(maze.config.width, maze.config.height);
    let open = |n: (Coord, Direction)|
        !maze.walls@.contains(s.position().spec_wall(n.1, maze.config));
    all.lemma_filter_contains_rev(open, e);
    crate::generator::lemma_neighbour_entries(
        s.position(),
        maze.config.width,
        maze.config.height,
    );
}

/// The way back from the current cell begins at the current cell.
pub proof fn lemma_path_head(s: SearchState)
    requires
        s.wf(),
    ensures
        chain(s.nodes, s.current as int).len() > 0,
        chain(s.nodes, s.current as int)[0] == s.position(),
{
    reveal(SearchState::wf);
    crate::solver::trail::lemma_chain_len(s.nodes, s.current as int);
}

/// What holds of every tick of a search: the goal and the order stay, and
/// what is explored stays explored.
pub proof fn lemma_tick_grows(before: SearchState, maze: &Maze)
    ensures
        forall|after: SearchState, result: &Maze, r: Result<(), Error>| #[trigger]
            Search::ticked(before, maze, after, result, r) ==> {
                &&& after.goal == before.goal
                &&& after.priority == before.priority
                &&& maze.explored@.subset_of(result.explored@)
                &&& (r is Err ==> r == Err::<(), Error>(Error::ImpossibleMaze))
            },
{
    assert forall|after: SearchState, result: &Maze, r: Result<(), Error>| #[trigger]
        Search::ticked(before, maze, after, result, r) implies {
        &&& after.goal == before.goal
        &&& after.priority == before.priority
        &&& maze.explored@.subset_of(result.explored@)
        &&& (r is Err ==> r == Err::<(), Error>(Error::ImpossibleMaze))
    } by {
        lemma_expanded_keeps(before, before.found(maze));
    }
}

/// Finding cells changes neither the goal, nor the order, nor the node the
/// search stands on.
pub proof fn lemma_expanded_keeps(s: SearchState, cells: Seq<(Coord, Direction)>)
    ensures
        s.expanded(cells).goal == s.goal,
        s.expanded(cells).priority == s.priority,
        s.expanded(cells).current == s.current,
    decreases cells.len(),
{
    if cells.len() > 0 {
        lemma_expanded_keeps(s.grown(cells[0].0), cells.drop_first());
    }
}

/// A well-formed search stays well formed when a node is added that links
/// back to an earlier node.
pub proof fn lemma_wf_push(s: SearchState, node: PathNode)
    requires
        s.wf(),
        linked(s.nodes.push(node)),
    ensures
        (SearchState { nodes: s.nodes.push(node), ..s }).wf(),
{
    reveal(SearchState::wf);
    let t = SearchState { nodes: s.nodes.push(node), ..s };
    assert forall|i: int| 0 <= i < t.queue.len() implies (#[trigger] t.queue[i]).node
        < t.nodes.len() by {
        assert(s.queue[i].node < s.nodes.len());
    }
}

/// Breadth-first search: the cells are visited in the order in which they
/// were found.
#[derive(Debug)]
pub struct BFS {
    search: Search,
}

impl View for BFS {
    type V = SearchState;

    closed spec fn view(&self) -> SearchState {
        self.search@
    }
}

impl BFS {
    /// A search that stands on the start of the maze.
    pub fn new(maze: &Maze) -> (s: BFS)
        requires
            maze.wf(),
        ensures
            s.wf(),
            s@ == SearchState::at_start(maze, Priority::Arrival),
            maze.explored@ == Set::<Coord>::empty() && maze.highlight_dark@ == Set::<
                Coord,
            >::empty() ==> s.inv(maze),
    {
        proof {
            if maze.highlight_dark@ == Set::<Coord>::empty() {
                crate::solver::shortest::lemma_shown_at_start(maze, Priority::Arrival);
            }
        }
        BFS { search: Search::new(maze, Priority::Arrival) }
    }

    /// The cells found from the current one.
    pub fn available_neighbours(&self, maze: &Maze) -> (r: Vec<(Coord, Direction)>)
        requires
            self.wf(),
            maze.wf(),
        ensures
            r@ == self@.found(maze),
    {
        self.search.available_neighbours(maze)
    }

}

impl BFS {
    /// No cell is explored through a standing wall: the cell that a tick
    /// marks as explored lies one step from the start or from a cell
    /// explored before.
    pub proof fn lemma_explored_beside(
        &self,
        maze: &Maze,
        after: &BFS,
        result: &Maze,
        r: Result<(), Error>,
        c: Coord,
    )
        requires
            self.wf(),
            maze.wf(),
            self.inv(maze),
            Search::ticked(self@, maze, after@, result, r),
            result.explored@.contains(c),
            !maze.explored@.contains(c),
        ensures
            exists|p: Coord|
                (p == maze.start || maze.explored@.contains(p)) && #[trigger] steps(
                    maze.config,
                    maze.walls@,
                )(p, c),
    {
        after.search.lemma_node_bound();
        crate::solver::shortest::lemma_explored_beside(self@, maze, after@, result, r, c);
    }
}

impl Solver for BFS {
    open spec fn way(&self) -> Seq<Coord> {
        chain(self@.nodes, self@.current as int)
    }

    open spec fn frontier(&self) -> Set<Coord> {
        crate::solver::shortest::frontier(self@)
    }

    closed spec fn inv(&self, maze: &Maze) -> bool {
        self.search@.inv(maze) && self.search@.shown(maze)
    }

    open spec fn fuel(&self, maze: &Maze) -> int {
        self@.fuel(maze)
    }

    fn path(&self) -> (r: Vec<Coord>) {
        self.search.path()
    }

    proof fn lemma_fuel(&self, maze: &Maze) {
        crate::solver::shortest::lemma_fuel_bound(self.search@, maze);
    }

    proof fn lemma_way(&self, maze: &Maze) {
        crate::solver::shortest::lemma_way_back(self.search@, maze);
    }

    proof fn lemma_frontier(&self, maze: &Maze) {
        reveal(SearchState::shown);
    }

    proof fn lemma_explored(&self, maze: &Maze, c: Coord) {
        crate::solver::shortest::lemma_explored_reached(self.search@, maze, c);
    }

    proof fn lemma_shortest(&self, maze: &Maze, walk: Seq<Coord>) {
        crate::solver::shortest::lemma_path_shortest(self.search@, maze, walk);
    }

    closed spec fn wf(&self) -> bool {
        self.search.wf() && self.search@.priority == Priority::Arrival
    }

    open spec fn position(&self) -> Coord {
        self@.position()
    }

    open spec fn goal(&self) -> Coord {
        self@.goal
    }

    fn is_done(&self) -> (r: bool) {
        self.search.is_done()
    }

    fn tick(&mut self, maze: &mut Maze) -> (r: Result<(), Error>)
        ensures
            Search::ticked(old(self)@, old(maze), final(self)@, final(maze), r),
    {
        proof {
            lemma_tick_grows(old(self)@, old(maze));
        }
        let r = self.search.tick(maze);
        proof {
            if old(self).inv(old(maze)) {
                if old(self)@.position() == old(self)@.goal {
                    crate::solver::shortest::lemma_inv_frame(self.search@, old(maze), maze);
                    crate::solver::shortest::lemma_shown_frame(self.search@, old(maze), maze);
                } else {
                    self.search.lemma_node_bound();
                    crate::solver::shortest::lemma_tick(old(self)@, old(maze), self@, maze, r);
                    crate::solver::shortest::lemma_tick_shown(
                        old(self)@,
                        old(maze),
                        self@,
                        maze,
                        r,
                    );
                }
            }
        }
        r
    }
}

/// Dijkstra's algorithm: the cell nearest to the start is visited first.
#[derive(Debug)]
pub struct Dijkstra {
    search: Search,
}

impl View for Dijkstra {
    type V = SearchState;

    closed spec fn view(&self) -> SearchState {
        self.search@
    }
}

impl Dijkstra {
    /// A search that stands on the start of the maze.
    pub fn new(maze: &Maze) -> (s: Dijkstra)
        requires
            maze.wf(),
        ensures
            s.wf(),
            s@ == SearchState::at_start(maze, Priority::Distance),
            maze.explored@ == Set::<Coord>::empty() && maze.highlight_dark@ == Set::<
                Coord,
            >::empty() ==> s.inv(maze),
    {
        proof {
            if maze.highlight_dark@ == Set::<Coord>::empty() {
                crate::solver::shortest::lemma_shown_at_start(maze, Priority::Distance);
            }
        }
        Dijkstra { search: Search::new(maze, Priority::Distance) }
    }

    /// The cells found from the current one.
    pub fn available_neighbours(&self, maze: &Maze) -> (r: Vec<(Coord, Direction)>)
        requires
            self.wf(),
            maze.wf(),
        ensures
            r@ == self@.found(maze),
    {
        self.search.available_neighbours(maze)
    }

}

impl Dijkstra {
    /// No cell is explored through a standing wall: the cell that a tick
    /// marks as explored is the start, or lies one step from the start or
    /// from a cell explored before.
    pub proof fn lemma_explored_beside(
        &self,
        maze: &Maze,
        after: &Dijkstra,
        result: &Maze,
        r: Result<(), Error>,
        c: Coord,
    )
        requires
            self.wf(),
            maze.wf(),
            self.inv(maze),
            Search::ticked(self@, maze, after@, result, r),
            result.explored@.contains(c),
            !maze.explored@.contains(c),
        ensures
            c != maze.start ==> exists|p: Coord|
                (p == maze.start || maze.explored@.contains(p)) && #[trigger] steps(
                    maze.config,
                    maze.walls@,
                )(p, c),
    {
        after.search.lemma_node_bound();
        crate::solver::shortest::lemma_explored_beside(self@, maze, after@, result, r, c);
    }
}

impl Solver for Dijkstra {
    open spec fn way(&self) -> Seq<Coord> {
        chain(self@.nodes, self@.current as int)
    }

    open spec fn frontier(&self) -> Set<Coord> {
        crate::solver::shortest::frontier(self@)
    }

    closed spec fn inv(&self, maze: &Maze) -> bool {
        self.search@.inv(maze) && self.search@.shown(maze)
    }

    open spec fn fuel(&self, maze: &Maze) -> int {
        self@.fuel(maze)
    }

    fn path(&self) -> (r: Vec<Coord>) {
        self.search.path()
    }

    proof fn lemma_fuel(&self, maze: &Maze) {
        crate::solver::shortest::lemma_fuel_bound(self.search@, maze);
    }

    proof fn lemma_way(&self, maze: &Maze) {
        crate::solver::shortest::lemma_way_back(self.search@, maze);
    }

    proof fn lemma_frontier(&self, maze: &Maze) {
        reveal(SearchState::shown);
    }

    proof fn lemma_explored(&self, maze: &Maze, c: Coord) {
        crate::solver::shortest::lemma_explored_reached(self.search@, maze, c);
    }

    proof fn lemma_shortest(&self, maze: &Maze, walk: Seq<Coord>) {
        crate::solver::shortest::lemma_path_shortest(self.search@, maze, walk);
    }

    closed spec fn wf(&self) -> bool {
        self.search.wf() && self.search@.priority == Priority::Distance
    }

    open spec fn position(&self) -> Coord {
        self@.position()
    }

    open spec fn goal(&self) -> Coord {
        self@.goal
    }

    fn is_done(&self) -> (r: bool) {
        self.search.is_done()
    }

    fn tick(&mut self, maze: &mut Maze) -> (r: Result<(), Error>)
        ensures
            Search::ticked(old(self)@, old(maze), final(self)@, final(maze), r),
    {
        proof {
            lemma_tick_grows(old(self)@, old(maze));
        }
        let r = self.search.tick(maze);
        proof {
            if old(self).inv(old(maze)) {
                if old(self)@.position() == old(self)@.goal {
                    crate::solver::shortest::lemma_inv_frame(self.search@, old(maze), maze);
                    crate::solver::shortest::lemma_shown_frame(self.search@, old(maze), maze);
                } else {
                    self.search.lemma_node_bound();
                    crate::solver::shortest::lemma_tick(old(self)@, old(maze), self@, maze, r);
                    crate::solver::shortest::lemma_tick_shown(
                        old(self)@,
                        old(maze),
                        self@,
                        maze,
                        r,
                    );
                }
            }
        }
        r
    }
}

/// Greedy best-first search: the cell that seems nearest to the goal is
/// visited first.
#[derive(Debug)]
pub struct Greedy {
    search: Search,
}

impl View for Greedy {
    type V = SearchState;

    closed spec fn view(&self) -> SearchState {
        self.search@
    }
}

impl Greedy {
    /// A search that stands on the start of the maze.
    pub fn new(maze: &Maze) -> (s: Greedy)
        requires
            maze.wf(),
        ensures
            s.wf(),
            s@ == SearchState::at_start(maze, Priority::Heuristic),
            maze.explored@ == Set::<Coord>::empty() && maze.highlight_dark@ == Set::<
                Coord,
            >::empty() ==> s.inv(maze),
    {
        proof {
            if maze.highlight_dark@ == Set::<Coord>::empty() {
                crate::solver::shortest::lemma_shown_at_start(maze, Priority::Heuristic);
            }
        }
        Greedy { search: Search::new(maze, Priority::Heuristic) }
    }

    /// The distance to the goal as the crow flies on a grid.
    pub fn heuristic(&self, coord: &Coord) -> (r: u32)
        requires
            self.wf(),
            coord.x >= 0,
            coord.y >= 0,
        ensures
            r == self@.goal.spec_manhattan_dist(*coord),
    {
        self.search.heuristic(coord)
    }

    /// The cells found from the current one.
    pub fn available_neighbours(&self, maze: &Maze) -> (r: Vec<(Coord, Direction)>)
        requires
            self.wf(),
            maze.wf(),
        ensures
            r@ == self@.found(maze),
    {
        self.search.available_neighbours(maze)
    }

}

impl Greedy {
    /// No cell is explored through a standing wall: the cell that a tick
    /// marks as explored is the start, or lies one step from the start or
    /// from a cell explored before.
    pub proof fn lemma_explored_beside(
        &self,
        maze: &Maze,
        after: &Greedy,
        result: &Maze,
        r: Result<(), Error>,
        c: Coord,
    )
        requires
            self.wf(),
            maze.wf(),
            self.inv(maze),
            Search::ticked(self@, maze, after@, result, r),
            result.explored@.contains(c),
            !maze.explored@.contains(c),
        ensures
            c != maze.start ==> exists|p: Coord|
                (p == maze.start || maze.explored@.contains(p)) && #[trigger] steps(
                    maze.config,
                    maze.walls@,
                )(p, c),
    {
        after.search.lemma_node_bound();
        crate::solver::shortest::lemma_explored_beside(self@, maze, after@, result, r, c);
    }
}

impl Solver for Greedy {
    open spec fn way(&self) -> Seq<Coord> {
        chain(self@.nodes, self@.current as int)
    }

    open spec fn frontier(&self) -> Set<Coord> {
        crate::solver::shortest::frontier(self@)
    }

    closed spec fn inv(&self, maze: &Maze) -> bool {
        self.search@.inv(maze) && self.search@.shown(maze)
    }

    open spec fn fuel(&self, maze: &Maze) -> int {
        self@.fuel(maze)
    }

    fn path(&self) -> (r: Vec<Coord>) {
        self.search.path()
    }

    proof fn lemma_fuel(&self, maze: &Maze) {
        crate::solver::shortest::lemma_fuel_bound(self.search@, maze);
    }

    proof fn lemma_way(&self, maze: &Maze) {
        crate::solver::shortest::lemma_way_back(self.search@, maze);
    }

    proof fn lemma_frontier(&self, maze: &Maze) {
        reveal(SearchState::shown);
    }

    proof fn lemma_explored(&self, maze: &Maze, c: Coord) {
        crate::solver::shortest::lemma_explored_reached(self.search@, maze, c);
    }

    proof fn lemma_shortest(&self, maze: &Maze, walk: Seq<Coord>) {
        crate::solver::shortest::lemma_path_shortest(self.search@, maze, walk);
    }

    closed spec fn wf(&self) -> bool {
        self.search.wf() && self.search@.priority == Priority::Heuristic
    }

    open spec fn position(&self) -> Coord {
        self@.position()
    }

    open spec fn goal(&self) -> Coord {
        self@.goal
    }

    fn is_done(&self) -> (r: bool) {
        self.search.is_done()
    }

    fn tick(&mut self, maze: &mut Maze) -> (r: Result<(), Error>)
        ensures
            Search::ticked(old(self)@, old(maze), final(self)@, final(maze), r),
    {
        proof {
            lemma_tick_grows(old(self)@, old(maze));
        }
        let r = self.search.tick(maze);
        proof {
            if old(self).inv(old(maze)) {
                if old(self)@.position() == old(self)@.goal {
                    crate::solver::shortest::lemma_inv_frame(self.search@, old(maze), maze);
                    crate::solver::shortest::lemma_shown_frame(self.search@, old(maze), maze);
                } else {
                    self.search.lemma_node_bound();
                    crate::solver::shortest::lemma_tick(old(self)@, old(maze), self@, maze, r);
                    crate::solver::shortest::lemma_tick_shown(
                        old(self)@,
                        old(maze),
                        self@,
                        maze,
                        r,
                    );
                }
            }
        }
        r
    }
}

/// A*: the cell with the least sum of the distance from the start and the
/// distance to the goal as the crow flies is visited first.
#[derive(Debug)]
pub struct AStar {
    search: Search,
}

impl View for AStar {
    type V = SearchState;

    closed spec fn view(&self) -> SearchState {
        self.search@
    }
}

impl AStar {
    /// A search that stands on the start of the maze.
    pub fn new(maze: &Maze) -> (s: AStar)
        requires
            maze.wf(),
        ensures
            s.wf(),
            s@ == SearchState::at_start(maze, Priority::Both),
            maze.explored@ == Set::<Coord>::empty() && maze.highlight_dark@ == Set::<
                Coord,
            >::empty() ==> s.inv(maze),
    {
        proof {
            if maze.highlight_dark@ == Set::<Coord>::empty() {
                crate::solver::shortest::lemma_shown_at_start(maze, Priority::Both);
            }
        }
        AStar { search: Search::new(maze, Priority::Both) }
    }

    /// The distance to the goal as the crow flies on a grid.
    pub fn heuristic(&self, coord: &Coord) -> (r: u32)
        requires
            self.wf(),
            coord.x >= 0,
            coord.y >= 0,
        ensures
            r == self@.goal.spec_manhattan_dist(*coord),
    {
        self.search.heuristic(coord)
    }

    /// The cells found from the current one.
    pub fn available_neighbours(&self, maze: &Maze) -> (r: Vec<(Coord, Direction)>)
        requires
            self.wf(),
            maze.wf(),
        ensures
            r@ == self@.found(maze),
    {
        self.search.available_neighbours(maze)
    }

}

impl AStar {
    /// No cell is explored through a standing wall: the cell that a tick
    /// marks as explored is the start, or lies one step from the start or
    /// from a cell explored before.
    pub proof fn lemma_explored_beside(
        &self,
        maze: &Maze,
        after: &AStar,
        result: &Maze,
        r: Result<(), Error>,
        c: Coord,
    )
        requires
            self.wf(),
            maze.wf(),
            self.inv(maze),
            Search::ticked(self@, maze, after@, result, r),
            result.explored@.contains(c),
            !maze.explored@.contains(c),
        ensures
            c != maze.start ==> exists|p: Coord|
                (p == maze.start || maze.explored@.contains(p)) && #[trigger] steps(
                    maze.config,
                    maze.walls@,
                )(p, c),
    {
        after.search.lemma_node_bound();
        crate::solver::shortest::lemma_explored_beside(self@, maze, after@, result, r, c);
    }
}

impl Solver for AStar {
    open spec fn way(&self) -> Seq<Coord> {
        chain(self@.nodes, self@.current as int)
    }

    open spec fn frontier(&self) -> Set<Coord> {
        crate::solver::shortest::frontier(self@)
    }

    closed spec fn inv(&self, maze: &Maze) -> bool {
        self.search@.inv(maze) && self.search@.shown(maze)
    }

    open spec fn fuel(&self, maze: &Maze) -> int {
        self@.fuel(maze)
    }

    fn path(&self) -> (r: Vec<Coord>) {
        self.search.path()
    }

    proof fn lemma_fuel(&self, maze: &Maze) {
        crate::solver::shortest::lemma_fuel_bound(self.search@, maze);
    }

    proof fn lemma_way(&self, maze: &Maze) {
        crate::solver::shortest::lemma_way_back(self.search@, maze);
    }

    proof fn lemma_frontier(&self, maze: &Maze) {
        reveal(SearchState::shown);
    }

    proof fn lemma_explored(&self, maze: &Maze, c: Coord) {
        crate::solver::shortest::lemma_explored_reached(self.search@, maze, c);
    }

    proof fn lemma_shortest(&self, maze: &Maze, walk: Seq<Coord>) {
        crate::solver::shortest::lemma_path_shortest(self.search@, maze, walk);
    }

    closed spec fn wf(&self) -> bool {
        self.search.wf() && self.search@.priority == Priority::Both
    }

    open spec fn position(&self) -> Coord {
        self@.position()
    }

    open spec fn goal(&self) -> Coord {
        self@.goal
    }

    fn is_done(&self) -> (r: bool) {
        self.search.is_done()
    }

    fn tick(&mut self, maze: &mut Maze) -> (r: Result<(), Error>)
        ensures
            Search::ticked(old(self)@, old(maze), final(self)@, final(maze), r),
    {
        proof {
            lemma_tick_grows(old(self)@, old(maze));
        }
        let r = self.search.tick(maze);
        proof {
            if old(self).inv(old(maze)) {
                if old(self)@.position() == old(self)@.goal {
                    crate::solver::shortest::lemma_inv_frame(self.search@, old(maze), maze);
                    crate::solver::shortest::lemma_shown_frame(self.search@, old(maze), maze);
                } else {
                    self.search.lemma_node_bound();
                    crate::solver::shortest::lemma_tick(old(self)@, old(maze), self@, maze, r);
                    crate::solver::shortest::lemma_tick_shown(
                        old(self)@,
                        old(maze),
                        self@,
                        maze,
                        r,
                    );
                }
            }
        }
        r
    }
}

} // verus!
