use std::collections::{HashMap, HashSet};
use vstd::prelude::*;
use crate::maze::{Coord, Orientation, Wall};

verus! {

broadcast use vstd::std_specs::hash::group_hash_axioms;

/// The number that stands for a pair of coordinates: no two pairs share one.
pub open spec fn pair_key(x: i32, y: i32) -> u64 {
    ((x + 0x8000_0000) * 0x1_0000_0000 + (y + 0x8000_0000)) as u64
}

/// The number that stands for a cell.
pub open spec fn coord_key(c: Coord) -> u64 {
    pair_key(c.x, c.y)
}

/// The number that stands for the place of a wall: its centre and the way
/// it runs.
pub open spec fn wall_key(w: Wall) -> u128 {
    (match w.orientation {
        Orientation::Horizontal => 0int,
        Orientation::Vertical => 0x1_0000_0000_0000_0000int,
    } + pair_key(w.center.x, w.center.y)) as u128
}

/// Distinct cells have distinct keys.
pub proof fn lemma_coord_key_injective(a: Coord, b: Coord)
    requires
        coord_key(a) == coord_key(b),
    ensures
        a == b,
{
}

/// Walls with the same key stand in the same place.
pub proof fn lemma_wall_key_injective(a: Wall, b: Wall)
    requires
        wall_key(a) == wall_key(b),
    ensures
        a.center == b.center,
        a.orientation == b.orientation,
{
}

pub(crate) fn pair_key_of(x: i32, y: i32) -> (k: u64)
    ensures
        k == pair_key(x, y),
{
    let hi: u64 = (x as i64 + 0x8000_0000) as u64;
    let lo: u64 = (y as i64 + 0x8000_0000) as u64;
    hi * 0x1_0000_0000 + lo
}

fn wall_key_of(w: &Wall) -> (k: u128)
    ensures
        k == wall_key(*w),
{
    let place: u128 = pair_key_of(w.center.x, w.center.y) as u128;
    match w.orientation {
        Orientation::Horizontal => place,
        Orientation::Vertical => 0x1_0000_0000_0000_0000 + place,
    }
}

/// A finite set of cells.
#[derive(Debug)]
pub struct CoordSet {
    keys: HashSet<u64>,
}

impl View for CoordSet {
    type V = Set<Coord>;

    closed spec fn view(&self) -> Set<Coord> {
        Set::new(|c: Coord| self.keys@.contains(coord_key(c)))
    }
}

impl CoordSet {
    /// The empty set.
    pub fn new() -> (s: CoordSet)
        ensures
            s@ == Set::<Coord>::empty(),
    {
        let s = CoordSet { keys: HashSet::new() };
        assert(s@ =~= Set::<Coord>::empty());
        s
    }

    /// Adds a cell; tells whether it was new.
    pub fn insert(&mut self, c: Coord) -> (fresh: bool)
        ensures
            final(self)@ == old(self)@.insert(c),
            fresh == !old(self)@.contains(c),
    {
        let fresh = self.keys.insert(pair_key_of(c.x, c.y));
        proof {
            assert forall|d: Coord| #[trigger]
                self@.contains(d) == old(self)@.insert(c).contains(d) by {
                if coord_key(d) == coord_key(c) {
                    lemma_coord_key_injective(d, c);
                }
            }
            assert(self@ =~= old(self)@.insert(c));
        }
        fresh
    }

    /// Takes a cell out; tells whether it was there.
    pub fn remove(&mut self, c: &Coord) -> (found: bool)
        ensures
            final(self)@ == old(self)@.remove(*c),
            found == old(self)@.contains(*c),
    {
        let k = pair_key_of(c.x, c.y);
        let found = self.keys.remove(&k);
        proof {
            assert forall|d: Coord| #[trigger]
                self@.contains(d) == old(self)@.remove(*c).contains(d) by {
                if coord_key(d) == coord_key(*c) {
                    lemma_coord_key_injective(d, *c);
                }
            }
            assert(self@ =~= old(self)@.remove(*c));
        }
        found
    }

    /// Tells whether a cell is in the set.
    pub fn contains(&self, c: &Coord) -> (found: bool)
        ensures
            found == self@.contains(*c),
    {
        let k = pair_key_of(c.x, c.y);
        self.keys.contains(&k)
    }

    /// Empties the set.
    pub fn clear(&mut self)
        ensures
            final(self)@ == Set::<Coord>::empty(),
    {
        self.keys.clear();
        assert(self@ =~= Set::<Coord>::empty());
    }

    /// Tells whether the set holds no cell.
    pub fn is_empty(&self) -> (r: bool)
        ensures
            r == (self@ == Set::<Coord>::empty()),
    {
        let r = self.keys.is_empty();
        proof {
            if r {
                assert(self@ =~= Set::<Coord>::empty());
            } else {
                let k = choose|k: u64| self.keys@.contains(k);
                let c = Coord {
                    x: (k / 0x1_0000_0000 - 0x8000_0000) as i32,
                    y: (k % 0x1_0000_0000 - 0x8000_0000) as i32,
                };
                assert(coord_key(c) == k);
                assert(self@.contains(c));
            }
        }
        r
    }
}

/// A finite set of walls in which no two walls stand in the same place.
#[derive(Debug)]
pub struct WallSet {
    walls: HashMap<u128, Wall>,
}

impl View for WallSet {
    type V = Set<Wall>;

    closed spec fn view(&self) -> Set<Wall> {
        Set::new(
            |w: Wall| self.walls@.contains_key(wall_key(w)) && self.walls@[wall_key(w)] == w,
        )
    }
}

impl WallSet {
    /// The empty set.
    pub fn new() -> (s: WallSet)
        ensures
            s@ == Set::<Wall>::empty(),
    {
        let s = WallSet { walls: HashMap::new() };
        assert(s@ =~= Set::<Wall>::empty());
        s
    }

    /// Puts a wall in its place, where it replaces any other wall.
    pub fn insert(&mut self, w: Wall)
        ensures
            forall|v: Wall|
                #[trigger] final(self)@.contains(v) <==> v == w || (old(self)@.contains(v)
                    && wall_key(v) != wall_key(w)),
    {
        self.walls.insert(wall_key_of(&w), w);
    }

    /// Takes a wall out; tells whether it was there.
    pub fn remove(&mut self, w: &Wall) -> (found: bool)
        ensures
            final(self)@ == old(self)@.remove(*w),
            found == old(self)@.contains(*w),
    {
        let found = self.contains(w);
        if found {
            let k = wall_key_of(w);
            self.walls.remove(&k);
        }
        assert(self@ =~= old(self)@.remove(*w));
        found
    }

    /// Tells whether a wall is in the set.
    pub fn contains(&self, w: &Wall) -> (found: bool)
        ensures
            found == self@.contains(*w),
    {
        let k = wall_key_of(w);
        match self.walls.get(&k) {
            Some(v) => v.center.x == w.center.x && v.center.y == w.center.y && v.border == w.border
                && v.size == w.size && (match (v.orientation, w.orientation) {
                (Orientation::Horizontal, Orientation::Horizontal) => true,
                (Orientation::Vertical, Orientation::Vertical) => true,
                _ => false,
            }),
            None => false,
        }
    }
}

} // verus!
