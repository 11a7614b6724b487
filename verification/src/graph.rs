//! The passage graph of a grid: cells are its nodes, open walls its edges.

use vstd::prelude::*;
use crate::cell::Cell;

verus! {

/// A position: row, then column.
pub type Pos = (int, int);

/// `(i, j)` names a cell of `g`.
pub open spec fn in_grid(g: Seq<Seq<Cell>>, i: int, j: int) -> bool {
    0 <= i < g.len() && 0 <= j < g[i].len()
}

/// Every passage is recorded on both of its sides.
pub open spec fn symmetric(g: Seq<Seq<Cell>>) -> bool {
    &&& forall|i: int, j: int|
        in_grid(g, i, j) && in_grid(g, i, j + 1) ==> (#[trigger] g[i][j]).e == g[i][j + 1].w
    &&& forall|i: int, j: int|
        in_grid(g, i, j) && in_grid(g, i + 1, j) ==> (#[trigger] g[i][j]).s == g[i + 1][j].n
}

/// No passage leads out of the grid.
pub open spec fn enclosed(g: Seq<Seq<Cell>>) -> bool {
    forall|i: int, j: int|
        in_grid(g, i, j) ==> {
            let c = #[trigger] g[i][j];
            &&& (i == 0 ==> !c.n)
            &&& (i == g.len() - 1 ==> !c.s)
            &&& (j == 0 ==> !c.w)
            &&& (j == g[i].len() - 1 ==> !c.e)
        }
}

/// One step: `b` is a neighbour of `a`, and `a` is open towards it.
pub open spec fn linked(g: Seq<Seq<Cell>>, a: Pos, b: Pos) -> bool {
    &&& in_grid(g, a.0, a.1)
    &&& in_grid(g, b.0, b.1)
    &&& {
        ||| (b == (a.0 - 1, a.1) && g[a.0][a.1].n)
        ||| (b == (a.0, a.1 + 1) && g[a.0][a.1].e)
        ||| (b == (a.0 + 1, a.1) && g[a.0][a.1].s)
        ||| (b == (a.0, a.1 - 1) && g[a.0][a.1].w)
    }
}

/// `p` walks from `a` to `b`, one step at a time.
pub open spec fn is_path(g: Seq<Seq<Cell>>, p: Seq<Pos>, a: Pos, b: Pos) -> bool {
    &&& p.len() >= 1
    &&& p[0] == a
    &&& p[p.len() - 1] == b
    &&& in_grid(g, a.0, a.1)
    &&& forall|k: int| 0 <= k < p.len() - 1 ==> linked(g, #[trigger] p[k], p[k + 1])
}

/// Some walk leads from `a` to `b`.
pub open spec fn connected(g: Seq<Seq<Cell>>, a: Pos, b: Pos) -> bool {
    exists|p: Seq<Pos>| is_path(g, p, a, b)
}

/// The passages counted at one cell: the one to the east and the one to the
/// south, where there is a neighbour on that side. Counting these two at
/// every cell counts each passage of a symmetric grid once.
pub open spec fn cell_passages(g: Seq<Seq<Cell>>, i: int, j: int) -> nat {
    let east: nat = if in_grid(g, i, j + 1) && g[i][j].e { 1 } else { 0 };
    let south: nat = if in_grid(g, i + 1, j) && g[i][j].s { 1 } else { 0 };
    east + south
}

/// The passages counted at the first `n` cells of row `i`.
pub open spec fn row_passages(g: Seq<Seq<Cell>>, i: int, n: int) -> nat
    decreases n,
{
    if n <= 0 {
        0
    } else {
        row_passages(g, i, n - 1) + cell_passages(g, i, n - 1)
    }
}

/// The passages counted in the first `m` rows.
pub open spec fn passages_upto(g: Seq<Seq<Cell>>, m: int) -> nat
    decreases m,
{
    if m <= 0 {
        0
    } else {
        passages_upto(g, m - 1) + row_passages(g, m - 1, g[m - 1].len() as int)
    }
}

/// The number of passages, that is of edges of the passage graph.
pub open spec fn passage_count(g: Seq<Seq<Cell>>) -> nat {
    passages_upto(g, g.len() as int)
}

/// A perfect maze: the passage graph is a spanning tree of the cells. Any two
/// cells are joined by a walk, and there is one passage fewer than cells.
pub open spec fn perfect(g: Seq<Seq<Cell>>) -> bool {
    &&& symmetric(g)
    &&& forall|a: Pos, b: Pos|
        in_grid(g, a.0, a.1) && in_grid(g, b.0, b.1) ==> #[trigger] connected(g, a, b)
    &&& g.len() > 0 ==> passage_count(g) + 1 == g.len() * g[0].len()
}

/// A walk may begin with one more step.
pub proof fn lemma_prepend(g: Seq<Seq<Cell>>, a: Pos, c: Pos, b: Pos)
    requires
        linked(g, a, c),
        connected(g, c, b),
    ensures
        connected(g, a, b),
{
    let p = choose|p: Seq<Pos>| is_path(g, p, c, b);
    let q = seq![a] + p;
    assert forall|k: int| 0 <= k < q.len() - 1 implies linked(g, #[trigger] q[k], q[k + 1]) by {
        if k > 0 {
            assert(q[k] == p[k - 1]);
            assert(q[k + 1] == p[k]);
        } else {
            assert(q[1] == p[0]);
        }
    }
    assert(is_path(g, q, a, b));
}

/// A walk may end with one more step.
pub proof fn lemma_append(g: Seq<Seq<Cell>>, a: Pos, c: Pos, b: Pos)
    requires
        connected(g, a, c),
        linked(g, c, b),
    ensures
        connected(g, a, b),
{
    let p = choose|p: Seq<Pos>| is_path(g, p, a, c);
    let q = p.push(b);
    assert forall|k: int| 0 <= k < q.len() - 1 implies linked(g, #[trigger] q[k], q[k + 1]) by {
        if k < p.len() - 1 {
            assert(q[k] == p[k]);
            assert(q[k + 1] == p[k + 1]);
        }
    }
    assert(is_path(g, q, a, b));
}

/// Every cell is joined to itself.
pub proof fn lemma_connected_refl(g: Seq<Seq<Cell>>, a: Pos)
    requires
        in_grid(g, a.0, a.1),
    ensures
        connected(g, a, a),
{
    assert(is_path(g, seq![a], a, a));
}

proof fn lemma_path_join(g: Seq<Seq<Cell>>, p: Seq<Pos>, a: Pos, c: Pos, b: Pos)
    requires
        is_path(g, p, a, c),
        connected(g, c, b),
    ensures
        connected(g, a, b),
    decreases p.len(),
{
    if p.len() > 1 {
        let t = p.subrange(1, p.len() as int);
        assert(linked(g, p[0], p[1]));
        assert forall|k: int| 0 <= k < t.len() - 1 implies linked(g, #[trigger] t[k], t[k + 1]) by {
            assert(linked(g, p[k + 1], p[k + 2]));
        }
        assert(is_path(g, t, p[1], c));
        lemma_path_join(g, t, p[1], c, b);
        lemma_prepend(g, a, p[1], b);
    }
}

/// Walks join end to end.
pub proof fn lemma_connected_trans(g: Seq<Seq<Cell>>, a: Pos, c: Pos, b: Pos)
    requires
        connected(g, a, c),
        connected(g, c, b),
    ensures
        connected(g, a, b),
{
    let p = choose|p: Seq<Pos>| is_path(g, p, a, c);
    lemma_path_join(g, p, a, c, b);
}

/// In a symmetric grid a step can be taken back.
pub proof fn lemma_linked_sym(g: Seq<Seq<Cell>>, a: Pos, b: Pos)
    requires
        symmetric(g),
        linked(g, a, b),
    ensures
        linked(g, b, a),
{
    if b == (a.0 - 1, a.1) {
        assert(g[b.0][b.1].s == g[b.0 + 1][b.1].n);
    } else if b == (a.0, a.1 + 1) {
        assert(g[a.0][a.1].e == g[a.0][a.1 + 1].w);
    } else if b == (a.0 + 1, a.1) {
        assert(g[a.0][a.1].s == g[a.0 + 1][a.1].n);
    } else {
        assert(g[b.0][b.1].e == g[b.0][b.1 + 1].w);
    }
}

proof fn lemma_path_back(g: Seq<Seq<Cell>>, p: Seq<Pos>, a: Pos, b: Pos)
    requires
        symmetric(g),
        is_path(g, p, a, b),
    ensures
        connected(g, b, a),
    decreases p.len(),
{
    if p.len() > 1 {
        let t = p.subrange(1, p.len() as int);
        assert(linked(g, p[0], p[1]));
        assert forall|k: int| 0 <= k < t.len() - 1 implies linked(g, #[trigger] t[k], t[k + 1]) by {
            assert(linked(g, p[k + 1], p[k + 2]));
        }
        assert(is_path(g, t, p[1], b));
        lemma_path_back(g, t, p[1], b);
        lemma_linked_sym(g, a, p[1]);
        lemma_append(g, b, p[1], a);
    } else {
        lemma_connected_refl(g, a);
    }
}

/// In a symmetric grid a walk can be walked back.
pub proof fn lemma_connected_sym(g: Seq<Seq<Cell>>, a: Pos, b: Pos)
    requires
        symmetric(g),
        connected(g, a, b),
    ensures
        connected(g, b, a),
{
    let p = choose|p: Seq<Pos>| is_path(g, p, a, b);
    lemma_path_back(g, p, a, b);
}

} // verus!
