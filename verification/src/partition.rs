use std::collections::HashMap;
use vstd::prelude::*;
use crate::maze::Coord;
use crate::sets::{coord_key, lemma_coord_key_injective, pair_key_of};

verus! {

broadcast use vstd::std_specs::hash::group_hash_axioms;

/// Cells sorted into numbered sets: each cell it holds is in exactly one set.
#[derive(Debug)]
pub struct Partition {
    labels: HashMap<u64, usize>,
    members: Vec<Coord>,
}

impl View for Partition {
    type V = Map<Coord, usize>;

    /// The number of the set of each cell held.
    closed spec fn view(&self) -> Map<Coord, usize> {
        Map::new(
            |c: Coord| self.labels@.contains_key(coord_key(c)),
            |c: Coord| self.labels@[coord_key(c)],
        )
    }
}

/// The sets after every cell of the set `from` has moved into the set `into`.
pub open spec fn renamed(sets: Map<Coord, usize>, from: usize, into: usize) -> Map<Coord, usize> {
    Map::new(
        |c: Coord| sets.contains_key(c),
        |c: Coord|
            if sets[c] == from {
                into
            } else {
                sets[c]
            },
    )
}

/// Both cells are held, in the same set.
pub open spec fn same_label(sets: Map<Coord, usize>, c1: Coord, c2: Coord) -> bool {
    sets.contains_key(c1) && sets.contains_key(c2) && sets[c1] == sets[c2]
}

/// The sets after the cell `c2` has joined the set of `c1`, with all the
/// cells of its own set, if it had one.
pub open spec fn joined(sets: Map<Coord, usize>, c1: Coord, c2: Coord) -> Map<Coord, usize> {
    if sets.contains_key(c2) {
        renamed(sets, sets[c2], sets[c1])
    } else {
        sets.insert(c2, sets[c1])
    }
}

impl Partition {
    /// The list of members names each cell held once, and no other.
    pub closed spec fn wf(&self) -> bool {
        &&& self.members@.no_duplicates()
        &&& forall|c: Coord| self.members@.contains(c) <==> #[trigger] self@.contains_key(c)
    }

    /// The number of cells held.
    pub closed spec fn size(&self) -> nat {
        self.members@.len()
    }

    /// The number of cells held is a number the machine can count to.
    pub proof fn lemma_size_bound(&self)
        ensures
            self.size() <= usize::MAX,
    {
        assert(self.members@.len() == self.members.len());
    }

    /// A partition that holds no cell.
    pub fn new() -> (p: Partition)
        ensures
            p.wf(),
            p@ == Map::<Coord, usize>::empty(),
            p.size() == 0,
    {
        let p = Partition { labels: HashMap::new(), members: Vec::new() };
        assert(p@ =~= Map::<Coord, usize>::empty());
        p
    }

    /// The number of the set that holds a cell.
    pub fn find(&self, c: &Coord) -> (r: Option<usize>)
        ensures
            r == (if self@.contains_key(*c) {
                Some(self@[*c])
            } else {
                None
            }),
    {
        let k = pair_key_of(c.x, c.y);
        match self.labels.get(&k) {
            Some(set) => Some(*set),
            None => None,
        }
    }

    /// Tells whether both cells are held, in the same set.
    pub fn same_set(&self, c1: &Coord, c2: &Coord) -> (r: bool)
        ensures
            r == same_label(self@, *c1, *c2),
    {
        match self.find(c1) {
            Some(s1) => match self.find(c2) {
                Some(s2) => s1 == s2,
                None => false,
            },
            None => false,
        }
    }

    /// Puts a cell into a set, out of the set that held it before, if any.
    pub fn place(&mut self, c: Coord, set: usize)
        requires
            old(self).wf(),
        ensures
            final(self).wf(),
            final(self)@ == old(self)@.insert(c, set),
            final(self).size() == old(self).size() + if old(self)@.contains_key(c) {
                0nat
            } else {
                1nat
            },
    {
        let k = pair_key_of(c.x, c.y);
        let known = self.labels.contains_key(&k);
        self.labels.insert(k, set);
        if !known {
            self.members.push(c);
        }
        proof {
            assert forall|d: Coord| #[trigger]
                self@.contains_key(d) == old(self)@.insert(c, set).contains_key(d) by {
                if coord_key(d) == coord_key(c) {
                    lemma_coord_key_injective(d, c);
                }
            }
            assert forall|d: Coord| self@.contains_key(d) implies #[trigger] self@[d] == old(self)@.insert(c, set)[d] by {
                if coord_key(d) == coord_key(c) {
                    lemma_coord_key_injective(d, c);
                }
            }
            assert(self@ =~= old(self)@.insert(c, set));
            if known {
                assert(old(self)@.contains_key(c));
                assert(old(self).members@.contains(c));
            } else {
                assert(!old(self)@.contains_key(c));
                assert(!old(self).members@.contains(c));
                assert forall|d: Coord| self.members@.contains(d) <==> #[trigger]
                    self@.contains_key(d) by {
                    if self.members@.contains(d) {
                        let i = choose|i: int|
                            0 <= i < self.members@.len() && self.members@[i] == d;
                        if i < old(self).members@.len() {
                            assert(old(self).members@[i] == d);
                            assert(old(self).members@.contains(d));
                        }
                    }
                    if self@.contains_key(d) {
                        if d == c {
                            assert(self.members@[self.members@.len() - 1] == c);
                        } else {
                            assert(old(self)@.contains_key(d));
                            let i = choose|i: int|
                                0 <= i < old(self).members@.len() && old(self).members@[i] == d;
                            assert(self.members@[i] == d);
                        }
                    }
                }
            }
        }
    }

    /// Moves every cell of the set `from` into the set `into`.
    pub fn rename(&mut self, from: usize, into: usize)
        requires
            old(self).wf(),
        ensures
            final(self).wf(),
            final(self).size() == old(self).size(),
            final(self)@ == renamed(old(self)@, from, into),
    {
        let mut i: usize = 0;
        while i < self.members.len()
            invariant
                i <= self.members.len(),
                self.wf(),
                self.members == old(self).members,
                self@.dom() == old(self)@.dom(),
                forall|j: int|
                    0 <= j < i ==> #[trigger] self@[self.members@[j]] == if old(self)@[self.members@[j]] == from {
                        into
                    } else {
                        old(self)@[self.members@[j]]
                    },
                forall|j: int|
                    i <= j < self.members@.len() ==> #[trigger] self@[self.members@[j]] == old(self)@[self.members@[j]],
            decreases self.members.len() - i,
        {
            let c = self.members[i];
            let k = pair_key_of(c.x, c.y);
            let ghost before = self@;
            assert(self.members@.contains(c));
            assert(self@.contains_key(c));
            assert(before[self.members@[i as int]] == old(self)@[self.members@[i as int]]);
            match self.labels.get(&k) {
                Some(set) => {
                    assert(*set == before[c]);
                    if *set == from {
                        self.labels.insert(k, into);
                        proof {
                            assert(self@[c] == into);
                            assert forall|d: Coord| #[trigger]
                                self@.contains_key(d) == before.contains_key(d) by {
                                if coord_key(d) == coord_key(c) {
                                    lemma_coord_key_injective(d, c);
                                }
                            }
                            assert(self@.dom() =~= before.dom());
                            assert forall|j: int|
                                0 <= j < self.members@.len() && j != i implies #[trigger] self@[self.members@[j]]
                                == before[self.members@[j]] by {
                                if coord_key(self.members@[j]) == coord_key(c) {
                                    lemma_coord_key_injective(self.members@[j], c);
                                }
                            }
                        }
                    }
                },
                None => {},
            }
            proof {
                assert forall|j: int| 0 <= j < i + 1 implies #[trigger] self@[self.members@[j]]
                    == if old(self)@[self.members@[j]] == from {
                    into
                } else {
                    old(self)@[self.members@[j]]
                } by {
                    if j < i {
                        assert(self@[self.members@[j]] == before[self.members@[j]]);
                    }
                }
            }
            i += 1;
        }
        proof {
            assert forall|c: Coord| #[trigger] self@.contains_key(c) implies self@[c] == if old(self)@[c] == from {
                into
            } else {
                old(self)@[c]
            } by {
                assert(self.members@.contains(c));
                let j = choose|j: int| 0 <= j < self.members@.len() && self.members@[j] == c;
                assert(self@[self.members@[j]] == self@[c]);
            }
            assert(self@ =~= renamed(old(self)@, from, into));
        }
    }

    /// The number of cells held.
    pub fn len(&self) -> (r: usize)
        ensures
            r == self.size(),
    {
        self.members.len()
    }
}

} // verus!
