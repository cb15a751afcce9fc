use vstd::prelude::*;
use crate::maze::Coord;
use crate::sets::CoordSet;

verus! {

/// A cell that a search has reached, with the node it was reached from.
#[derive(Debug, Clone, Copy, PartialEq, Eq, Structural)]
pub struct PathNode {
    pub coord: Coord,
    /// The number of steps from the root.
    pub dist: u64,
    /// The index of the node this one was reached from; none for the root.
    pub previous: Option<usize>,
}

/// Every node but a root points back to an earlier node, one step nearer
/// to the root.
pub open spec fn linked(nodes: Seq<PathNode>) -> bool {
    forall|i: int|
        0 <= i < nodes.len() ==> match (#[trigger] nodes[i]).previous {
            Some(p) => p < i && nodes[i].dist == nodes[p as int].dist + 1,
            None => nodes[i].dist == 0,
        }
}

/// The cells from the node `i` back to its root.
pub open spec fn chain(nodes: Seq<PathNode>, i: int) -> Seq<Coord>
    decreases i,
{
    if 0 <= i < nodes.len() {
        match nodes[i].previous {
            Some(p) => if p < i {
                seq![nodes[i].coord] + chain(nodes, p as int)
            } else {
                seq![nodes[i].coord]
            },
            None => seq![nodes[i].coord],
        }
    } else {
        Seq::empty()
    }
}

/// The way back from a node has as many steps as the node's distance says,
/// and a node is never farther from the root than its index.
pub proof fn lemma_chain_len(nodes: Seq<PathNode>, i: int)
    requires
        linked(nodes),
        0 <= i < nodes.len(),
    ensures
        chain(nodes, i).len() == nodes[i].dist + 1,
        nodes[i].dist <= i,
        chain(nodes, i)[0] == nodes[i].coord,
    decreases i,
{
    match nodes[i].previous {
        Some(p) => {
            lemma_chain_len(nodes, p as int);
        },
        None => {},
    }
}

/// Nodes added at the end leave the ways back from the earlier nodes as
/// they were.
pub proof fn lemma_chain_grows(nodes: Seq<PathNode>, more: Seq<PathNode>, i: int)
    requires
        linked(nodes),
        0 <= i < nodes.len(),
        more.len() >= nodes.len(),
        more.subrange(0, nodes.len() as int) == nodes,
    ensures
        chain(more, i) == chain(nodes, i),
    decreases i,
{
    assert(more[i] == more.subrange(0, nodes.len() as int)[i]);
    match nodes[i].previous {
        Some(p) => {
            lemma_chain_grows(nodes, more, p as int);
        },
        None => {},
    }
}

/// The nodes a search has reached, each linked back to the node it was
/// reached from.
#[derive(Debug)]
pub struct Trail {
    nodes: Vec<PathNode>,
}

impl View for Trail {
    type V = Seq<PathNode>;

    closed spec fn view(&self) -> Seq<PathNode> {
        self.nodes@
    }
}

impl Trail {
    /// A trail that holds the root alone.
    pub fn new(root: Coord) -> (t: Trail)
        ensures
            t@ == seq![PathNode { coord: root, dist: 0, previous: None }],
            linked(t@),
    {
        let mut nodes: Vec<PathNode> = Vec::new();
        nodes.push(PathNode { coord: root, dist: 0, previous: None });
        assert(nodes@ =~= seq![PathNode { coord: root, dist: 0, previous: None }]);
        Trail { nodes }
    }

    /// There are no more nodes than the machine can count.
    pub proof fn lemma_len_bound(&self)
        ensures
            self@.len() <= usize::MAX,
    {
        assert(self.nodes@.len() == self.nodes.len());
    }

    /// The number of nodes.
    pub fn len(&self) -> (r: usize)
        ensures
            r == self@.len(),
    {
        self.nodes.len()
    }

    /// The node at an index.
    pub fn node(&self, i: usize) -> (r: PathNode)
        requires
            i < self@.len(),
        ensures
            r == self@[i as int],
    {
        self.nodes[i]
    }

    /// Adds a cell reached from the node `previous`; hands back its index.
    pub fn extend(&mut self, coord: Coord, previous: usize) -> (i: usize)
        requires
            linked(old(self)@),
            previous < old(self)@.len(),
        ensures
            linked(final(self)@),
            i == old(self)@.len(),
            final(self)@ == old(self)@.push(
                PathNode {
                    coord,
                    dist: (old(self)@[previous as int].dist + 1) as u64,
                    previous: Some(previous),
                },
            ),
    {
        proof {
            lemma_chain_len(self@, previous as int);
        }
        let i = self.nodes.len();
        let dist = self.nodes[previous].dist + 1;
        self.nodes.push(PathNode { coord, dist, previous: Some(previous) });
        i
    }

    /// The cells from a node back to the root.
    pub fn path(&self, from: usize) -> (r: Vec<Coord>)
        requires
            linked(self@),
            from < self@.len(),
        ensures
            r@ == chain(self@, from as int),
    {
        let mut cells: Vec<Coord> = Vec::new();
        let mut i = from;
        loop
            invariant_except_break
                cells@ + chain(self@, i as int) == chain(self@, from as int),
            invariant
                linked(self@),
                i < self@.len(),
            ensures
                cells@ == chain(self@, from as int),
            decreases i,
        {
            let node = self.nodes[i];
            let ghost before = cells@;
            cells.push(node.coord);
            match node.previous {
                Some(p) => {
                    assert(cells@ + chain(self@, p as int) =~= before + chain(self@, i as int)) by {
                        assert(chain(self@, i as int) == seq![node.coord] + chain(self@, p as int));
                    }
                    i = p;
                },
                None => {
                    assert(chain(self@, i as int) == seq![node.coord]);
                    assert(cells@ =~= chain(self@, from as int));
                    break ;
                },
            }
        }
        cells
    }

    /// Marks the cells from a node back to the root, and no others.
    pub fn highlight_path(&self, from: usize, marks: &mut CoordSet)
        requires
            linked(self@),
            from < self@.len(),
        ensures
            final(marks)@ == chain(self@, from as int).to_set(),
    {
        marks.clear();
        let cells = self.path(from);
        let mut i: usize = 0;
        while i < cells.len()
            invariant
                i <= cells.len(),
                marks@ == cells@.take(i as int).to_set(),
            decreases cells.len() - i,
        {
            marks.insert(cells[i]);
            proof {
                assert(cells@.take(i + 1) == cells@.take(i as int).push(cells@[i as int]));
                lemma_push_to_set(cells@.take(i as int), cells@[i as int]);
            }
            i += 1;
        }
        assert(cells@.take(cells.len() as int) == cells@);
    }
}

/// The members of a list with one more entry are the members of the list
/// and that entry.
pub proof fn lemma_push_to_set<A>(s: Seq<A>, a: A)
    ensures
        s.push(a).to_set() == s.to_set().insert(a),
{
    assert forall|x: A| s.push(a).to_set().contains(x) <==> s.to_set().insert(a).contains(x) by {
        if s.push(a).contains(x) {
            let i = choose|i: int| 0 <= i < s.push(a).len() && s.push(a)[i] == x;
            if i < s.len() {
                assert(s[i] == x);
            }
        }
        if s.contains(x) {
            let i = choose|i: int| 0 <= i < s.len() && s[i] == x;
            assert(s.push(a)[i] == x);
        }
        if x == a {
            assert(s.push(a)[s.len() as int] == a);
        }
    }
    assert(s.push(a).to_set() =~= s.to_set().insert(a));
}

} // verus!
