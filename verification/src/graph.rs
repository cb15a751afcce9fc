use vstd::prelude::*;
use crate::maze::Coord;

verus! {

/// Which pairs of cells one step leads between.
pub type Steps = spec_fn(Coord, Coord) -> bool;

/// A step from `a` to `b` has a step back.
pub open spec fn symmetric(adj: Steps) -> bool {
    forall|a: Coord, b: Coord| #[trigger] adj(a, b) ==> adj(b, a)
}

/// A list of cells, each one step from the cell before it.
pub open spec fn is_walk(adj: Steps, p: Seq<Coord>) -> bool {
    p.len() > 0 && forall|i: int| 0 <= i < p.len() - 1 ==> adj(#[trigger] p[i], p[i + 1])
}

/// A walk leads from `a` to `b`.
pub open spec fn connected(adj: Steps, a: Coord, b: Coord) -> bool {
    exists|p: Seq<Coord>| #[trigger] is_walk(adj, p) && p[0] == a && p.last() == b
}

/// The steps of `adj` but those between `u` and `v`.
pub open spec fn without(adj: Steps, u: Coord, v: Coord) -> Steps {
    |a: Coord, b: Coord| adj(a, b) && !(a == u && b == v) && !(a == v && b == u)
}

/// The steps of `adj` and those between `u` and `v`.
pub open spec fn with_edge(adj: Steps, u: Coord, v: Coord) -> Steps {
    |a: Coord, b: Coord| adj(a, b) || (a == u && b == v) || (a == v && b == u)
}

/// No step lies on a loop: without the steps between two cells, no walk
/// leads from the one to the other.
pub open spec fn acyclic(adj: Steps) -> bool {
    forall|a: Coord, b: Coord| #[trigger] adj(a, b) ==> !connected(without(adj, a, b), a, b)
}

/// Every step of `small` is a step of `large`.
pub open spec fn included(small: Steps, large: Steps) -> bool {
    forall|a: Coord, b: Coord| #[trigger] small(a, b) ==> large(a, b)
}

/// Every cell is connected to itself.
pub proof fn lemma_connected_refl(adj: Steps, a: Coord)
    ensures
        connected(adj, a, a),
{
    let p = seq![a];
    assert(is_walk(adj, p));
    assert(p[0] == a && p.last() == a);
}

/// A walk can go on by one step.
pub proof fn lemma_connected_step(adj: Steps, a: Coord, b: Coord, c: Coord)
    requires
        connected(adj, a, b),
        adj(b, c),
    ensures
        connected(adj, a, c),
{
    let p = choose|p: Seq<Coord>| #[trigger] is_walk(adj, p) && p[0] == a && p.last() == b;
    let q = p.push(c);
    assert forall|i: int| 0 <= i < q.len() - 1 implies adj(#[trigger] q[i], q[i + 1]) by {
        if i < p.len() - 1 {
            assert(adj(p[i], p[i + 1]));
        }
    }
    assert(is_walk(adj, q));
    assert(q[0] == a && q.last() == c);
}

/// Two walks that meet make one walk.
pub proof fn lemma_connected_trans(adj: Steps, a: Coord, b: Coord, c: Coord)
    requires
        connected(adj, a, b),
        connected(adj, b, c),
    ensures
        connected(adj, a, c),
{
    let p = choose|p: Seq<Coord>| #[trigger] is_walk(adj, p) && p[0] == a && p.last() == b;
    let q = choose|q: Seq<Coord>| #[trigger] is_walk(adj, q) && q[0] == b && q.last() == c;
    let r = p + q.drop_first();
    assert forall|i: int| 0 <= i < r.len() - 1 implies adj(#[trigger] r[i], r[i + 1]) by {
        if i < p.len() - 1 {
            assert(adj(p[i], p[i + 1]));
        } else {
            let j = i - p.len() + 1;
            assert(adj(q[j], q[j + 1]));
            if i == p.len() - 1 {
                assert(r[i] == p.last());
            } else {
                assert(r[i] == q[j]);
            }
            assert(r[i + 1] == q[j + 1]);
        }
    }
    assert(is_walk(adj, r));
    assert(r[0] == a);
    if q.len() == 1 {
        assert(r.last() == p.last());
    } else {
        assert(r.last() == q.last());
    }
}

/// Where every step has a step back, every walk has a walk back.
pub proof fn lemma_connected_sym(adj: Steps, a: Coord, b: Coord)
    requires
        symmetric(adj),
        connected(adj, a, b),
    ensures
        connected(adj, b, a),
{
    let p = choose|p: Seq<Coord>| #[trigger] is_walk(adj, p) && p[0] == a && p.last() == b;
    let q = p.reverse();
    assert forall|i: int| 0 <= i < q.len() - 1 implies adj(#[trigger] q[i], q[i + 1]) by {
        let j = p.len() - 2 - i;
        assert(adj(p[j], p[j + 1]));
        assert(q[i] == p[j + 1]);
        assert(q[i + 1] == p[j]);
    }
    assert(is_walk(adj, q));
    assert(q[0] == b && q.last() == a);
}

/// A walk stays a walk where there are more steps.
pub proof fn lemma_walk_mono(small: Steps, large: Steps, p: Seq<Coord>)
    requires
        included(small, large),
        is_walk(small, p),
    ensures
        is_walk(large, p),
{
    assert forall|i: int| 0 <= i < p.len() - 1 implies large(#[trigger] p[i], p[i + 1]) by {
        assert(small(p[i], p[i + 1]));
    }
}

/// Cells stay connected where there are more steps.
pub proof fn lemma_connected_mono(small: Steps, large: Steps, a: Coord, b: Coord)
    requires
        included(small, large),
        connected(small, a, b),
    ensures
        connected(large, a, b),
{
    let p = choose|p: Seq<Coord>| #[trigger] is_walk(small, p) && p[0] == a && p.last() == b;
    lemma_walk_mono(small, large, p);
}

/// A walk that may step between `u` and `v` either gets by without such a
/// step, or leads to the one of them and goes on from the other.
pub proof fn lemma_split(adj: Steps, u: Coord, v: Coord, p: Seq<Coord>)
    requires
        is_walk(adj, p),
    ensures
        ({
            let rest = without(adj, u, v);
            let a = p[0];
            let b = p.last();
            ||| connected(rest, a, b)
            ||| (connected(rest, a, u) && connected(rest, v, b))
            ||| (connected(rest, a, v) && connected(rest, u, b))
        }),
    decreases p.len(),
{
    let rest = without(adj, u, v);
    let a = p[0];
    let b = p.last();
    if p.len() == 1 {
        lemma_connected_refl(rest, a);
    } else {
        let q = p.drop_last();
        let m = q.last();
        assert forall|i: int| 0 <= i < q.len() - 1 implies adj(#[trigger] q[i], q[i + 1]) by {
            assert(adj(p[i], p[i + 1]));
        }
        assert(is_walk(adj, q));
        lemma_split(adj, u, v, q);
        assert(adj(p[p.len() - 2], p[p.len() - 2 + 1]));
        assert(m == p[p.len() - 2]);
        assert(adj(m, b));
        if rest(m, b) {
            if connected(rest, a, m) {
                lemma_connected_step(rest, a, m, b);
            } else if connected(rest, a, u) && connected(rest, v, m) {
                lemma_connected_step(rest, v, m, b);
            } else {
                lemma_connected_step(rest, u, m, b);
            }
        } else if m == u && b == v {
            lemma_connected_refl(rest, v);
            if connected(rest, a, m) {
            } else if connected(rest, a, u) && connected(rest, v, m) {
            } else {
            }
        } else {
            assert(m == v && b == u);
            lemma_connected_refl(rest, u);
            if connected(rest, a, m) {
            } else if connected(rest, a, u) && connected(rest, v, m) {
            } else {
            }
        }
    }
}

/// A step between two cells that no walk connects closes no loop.
pub proof fn lemma_bridge_keeps_acyclic(adj: Steps, u: Coord, v: Coord)
    requires
        symmetric(adj),
        acyclic(adj),
        !connected(adj, u, v),
    ensures
        symmetric(with_edge(adj, u, v)),
        acyclic(with_edge(adj, u, v)),
{
    let more = with_edge(adj, u, v);
    lemma_connected_refl(adj, u);
    assert(u != v);
    assert(!adj(u, v)) by {
        if adj(u, v) {
            lemma_connected_refl(adj, u);
            lemma_connected_step(adj, u, u, v);
        }
    }
    assert(!adj(v, u));
    assert forall|a: Coord, b: Coord| #[trigger] more(a, b) implies !connected(
        without(more, a, b),
        a,
        b,
    ) by {
        let cut = without(more, a, b);
        if connected(cut, a, b) {
            if (a == u && b == v) || (a == v && b == u) {
                assert(included(cut, adj));
                lemma_connected_mono(cut, adj, a, b);
                if a == v {
                    lemma_connected_sym(adj, a, b);
                }
            } else {
                assert(adj(a, b));
                let old_cut = without(adj, a, b);
                let p = choose|p: Seq<Coord>| #[trigger]
                    is_walk(cut, p) && p[0] == a && p.last() == b;
                lemma_split(cut, u, v, p);
                let rest = without(cut, u, v);
                assert(included(rest, old_cut));
                assert(included(old_cut, adj));
                assert(symmetric(old_cut)) by {
                    assert forall|x: Coord, y: Coord| #[trigger] old_cut(x, y) implies old_cut(
                        y,
                        x,
                    ) by {
                        assert(adj(x, y));
                    }
                }
                if connected(rest, a, b) {
                    lemma_connected_mono(rest, old_cut, a, b);
                } else if connected(rest, a, u) && connected(rest, v, b) {
                    lemma_connected_mono(rest, adj, a, u);
                    lemma_connected_mono(rest, adj, v, b);
                    lemma_connected_sym(adj, a, u);
                    lemma_connected_step(adj, u, a, b);
                    lemma_connected_sym(adj, v, b);
                    lemma_connected_trans(adj, u, b, v);
                } else {
                    lemma_connected_mono(rest, adj, a, v);
                    lemma_connected_mono(rest, adj, u, b);
                    lemma_connected_sym(adj, a, v);
                    lemma_connected_step(adj, v, a, b);
                    lemma_connected_sym(adj, u, b);
                    lemma_connected_trans(adj, v, b, u);
                    lemma_connected_sym(adj, v, u);
                }
            }
        }
    }
    assert forall|a: Coord, b: Coord| #[trigger] more(a, b) implies more(b, a) by {
        if adj(a, b) {
            assert(adj(b, a));
        }
    }
}

/// Where no step lies on a loop, a walk that visits no cell twice is as
/// short as any walk between its ends.
pub proof fn lemma_simple_walk_shortest(adj: Steps, p: Seq<Coord>, q: Seq<Coord>)
    requires
        symmetric(adj),
        acyclic(adj),
        is_walk(adj, p),
        p.no_duplicates(),
        is_walk(adj, q),
        q[0] == p[0],
        q.last() == p.last(),
    ensures
        p.len() <= q.len(),
    decreases p.len(),
{
    if p.len() > 1 {
        let a = p[0];
        let n = p[1];
        let b = p.last();
        assert(adj(p[0int], p[0int + 1]));
        let cut = without(adj, a, n);
        let tail = p.drop_first();
        assert forall|i: int| 0 <= i < tail.len() - 1 implies cut(#[trigger] tail[i], tail[i + 1]) by {
            assert(adj(p[i + 1], p[i + 1 + 1]));
            assert(tail[i] == p[i + 1]);
            assert(tail[i + 1] == p[i + 2]);
        }
        assert(is_walk(cut, tail));
        assert(tail[0] == n && tail.last() == b);
        assert(tail.no_duplicates()) by {
            assert forall|i: int, j: int| 0 <= i < tail.len() && 0 <= j < tail.len() && i
                != j implies tail[i] != tail[j] by {
                assert(p[i + 1] != p[j + 1]);
            }
        }
        lemma_walk_mono(cut, adj, tail);
        if forall|i: int| 0 <= i < q.len() - 1 ==> cut(#[trigger] q[i], q[i + 1]) {
            assert(is_walk(cut, q));
            assert(symmetric(cut)) by {
                assert forall|x: Coord, y: Coord| #[trigger] cut(x, y) implies cut(y, x) by {
                    assert(adj(x, y));
                }
            }
            assert(connected(cut, a, b));
            assert(connected(cut, n, b));
            lemma_connected_sym(cut, n, b);
            lemma_connected_trans(cut, a, b, n);
            assert(false);
        } else {
            let i = choose|i: int| 0 <= i < q.len() - 1 && !cut(#[trigger] q[i], q[i + 1]);
            assert(adj(q[i], q[i + 1]));
            let from = if q[i] == a {
                i + 1
            } else {
                i
            };
            assert(q[from] == n);
            assert(from >= 1);
            let rest = q.skip(from);
            assert forall|j: int| 0 <= j < rest.len() - 1 implies adj(
                #[trigger] rest[j],
                rest[j + 1],
            ) by {
                assert(adj(q[j + from], q[j + from + 1]));
            }
            assert(is_walk(adj, rest));
            assert(rest[0] == n && rest.last() == b);
            lemma_simple_walk_shortest(adj, tail, rest);
        }
    }
}

} // verus!
