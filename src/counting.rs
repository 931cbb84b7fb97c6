use vstd::prelude::*;
use crate::cell::{Cell};

verus! {

/// How many cells of a row satisfy `p`.
pub open spec fn row_count(r: Seq<Cell>, p: spec_fn(Cell) -> bool) -> nat
    decreases r.len(),
{
    if r.len() == 0 {
        0
    } else {
        row_count(r.drop_last(), p) + if p(r.last()) { 1nat } else { 0nat }
    }
}

/// How many cells of a grid satisfy `p`.
pub open spec fn grid_count(g: Seq<Vec<Cell>>, p: spec_fn(Cell) -> bool) -> nat
    decreases g.len(),
{
    if g.len() == 0 {
        0
    } else {
        grid_count(g.drop_last(), p) + row_count(g.last()@, p)
    }
}

/// How many positions of two rows hold a pair of cells in relation `f`.
pub open spec fn row_count2(r1: Seq<Cell>, r2: Seq<Cell>, f: spec_fn(Cell, Cell) -> bool) -> nat
    decreases r1.len(),
{
    if r1.len() == 0 || r2.len() == 0 {
        0
    } else {
        row_count2(r1.drop_last(), r2.drop_last(), f) + if f(r1.last(), r2.last()) { 1nat } else { 0nat }
    }
}

/// How many positions of two grids hold a pair of cells in relation `f`.
pub open spec fn grid_count2(g1: Seq<Vec<Cell>>, g2: Seq<Vec<Cell>>, f: spec_fn(Cell, Cell) -> bool) -> nat
    decreases g1.len(),
{
    if g1.len() == 0 || g2.len() == 0 {
        0
    } else {
        grid_count2(g1.drop_last(), g2.drop_last(), f) + row_count2(g1.last()@, g2.last()@, f)
    }
}

/// A cell that satisfied `p` and no longer does.
pub open spec fn lost(p: spec_fn(Cell) -> bool) -> spec_fn(Cell, Cell) -> bool {
    |a: Cell, b: Cell| p(a) && !p(b)
}

pub open spec fn ind(b: bool) -> nat {
    if b { 1 } else { 0 }
}

pub proof fn lemma_row_count_bound(r: Seq<Cell>, p: spec_fn(Cell) -> bool)
    ensures
        row_count(r, p) <= r.len(),
    decreases r.len(),
{
    if r.len() > 0 {
        lemma_row_count_bound(r.drop_last(), p);
    }
}

/// Changing one cell of a row changes its count by at most that cell.
pub proof fn lemma_row_count_update(r: Seq<Cell>, i: int, c: Cell, p: spec_fn(Cell) -> bool)
    requires
        0 <= i < r.len(),
    ensures
        row_count(r.update(i, c), p) + ind(p(r[i])) == row_count(r, p) + ind(p(c)),
    decreases r.len(),
{
    let r2 = r.update(i, c);
    if i == r.len() - 1 {
        assert(r2.drop_last() =~= r.drop_last());
    } else {
        lemma_row_count_update(r.drop_last(), i, c, p);
        assert(r2.drop_last() =~= r.drop_last().update(i, c));
    }
}

/// A row whose cells satisfy `p` only where another row's cells do has no
/// larger count, and a smaller one where some cell lost `p`.
pub proof fn lemma_row_count_mono(r1: Seq<Cell>, r2: Seq<Cell>, p: spec_fn(Cell) -> bool)
    requires
        r1.len() == r2.len(),
        forall|i: int| 0 <= i < r1.len() && p(#[trigger] r2[i]) ==> p(r1[i]),
    ensures
        row_count(r2, p) <= row_count(r1, p),
        (exists|i: int| 0 <= i < r1.len() && p(#[trigger] r1[i]) && !p(r2[i]))
            ==> row_count(r2, p) < row_count(r1, p),
    decreases r1.len(),
{
    if r1.len() > 0 {
        let a = r1.drop_last();
        let b = r2.drop_last();
        assert forall|i: int| 0 <= i < a.len() && p(#[trigger] b[i]) implies p(a[i]) by {
            assert(b[i] == r2[i]);
        }
        lemma_row_count_mono(a, b, p);
        if exists|i: int| 0 <= i < r1.len() && p(#[trigger] r1[i]) && !p(r2[i]) {
            let i = choose|i: int| 0 <= i < r1.len() && p(#[trigger] r1[i]) && !p(r2[i]);
            if i < a.len() {
                assert(p(a[i]) && !p(b[i]));
            }
        }
    }
}

/// Two predicates that split the cells between them count the whole row.
pub proof fn lemma_row_count_split(r: Seq<Cell>, p: spec_fn(Cell) -> bool, q: spec_fn(Cell) -> bool)
    requires
        forall|c: Cell| #[trigger] p(c) == !q(c),
    ensures
        row_count(r, p) + row_count(r, q) == r.len(),
    decreases r.len(),
{
    if r.len() > 0 {
        lemma_row_count_split(r.drop_last(), p, q);
        assert(p(r.last()) == !q(r.last()));
    }
}

pub proof fn lemma_grid_count_bound(g: Seq<Vec<Cell>>, p: spec_fn(Cell) -> bool, w: int)
    requires
        forall|j: int| 0 <= j < g.len() ==> (#[trigger] g[j])@.len() == w,
    ensures
        grid_count(g, p) <= g.len() * w,
    decreases g.len(),
{
    if g.len() > 0 {
        lemma_grid_count_bound(g.drop_last(), p, w);
        lemma_row_count_bound(g.last()@, p);
        assert(g.len() * w == (g.len() - 1) * w + w) by (nonlinear_arith);
    }
}

/// Replacing one row changes the grid's count by the difference of the rows.
pub proof fn lemma_grid_count_update(g: Seq<Vec<Cell>>, y: int, v: Vec<Cell>, p: spec_fn(Cell) -> bool)
    requires
        0 <= y < g.len(),
    ensures
        grid_count(g.update(y, v), p) + row_count(g[y]@, p) == grid_count(g, p) + row_count(v@, p),
    decreases g.len(),
{
    let g2 = g.update(y, v);
    if y == g.len() - 1 {
        assert(g2.drop_last() =~= g.drop_last());
    } else {
        lemma_grid_count_update(g.drop_last(), y, v, p);
        assert(g2.drop_last() =~= g.drop_last().update(y, v));
    }
}

/// Changing the cell at (x, y) changes the grid's count by at most that cell.
pub proof fn lemma_grid_count_set(g: Seq<Vec<Cell>>, g2: Seq<Vec<Cell>>, x: int, y: int, p: spec_fn(Cell) -> bool)
    requires
        0 <= y < g.len(),
        0 <= x < g[y]@.len(),
        g2.len() == g.len(),
        forall|j: int| 0 <= j < g.len() && j != y ==> (#[trigger] g2[j])@ == g[j]@,
        g2[y]@ == g[y]@.update(x, g2[y]@[x]),
    ensures
        grid_count(g2, p) + ind(p(g[y]@[x])) == grid_count(g, p) + ind(p(g2[y]@[x])),
{
    lemma_grid_count_update(g, y, g2[y], p);
    lemma_row_count_update(g[y]@, x, g2[y]@[x], p);
    lemma_grid_count_views(g.update(y, g2[y]), g2, p);
}

/// The count depends on the rows' contents alone.
pub proof fn lemma_grid_count_views(g1: Seq<Vec<Cell>>, g2: Seq<Vec<Cell>>, p: spec_fn(Cell) -> bool)
    requires
        g1.len() == g2.len(),
        forall|j: int| 0 <= j < g1.len() ==> (#[trigger] g1[j])@ == g2[j]@,
    ensures
        grid_count(g1, p) == grid_count(g2, p),
    decreases g1.len(),
{
    if g1.len() > 0 {
        lemma_grid_count_views(g1.drop_last(), g2.drop_last(), p);
        assert(g1.last()@ == g2[g1.len() - 1]@);
    }
}

/// The grid version of `lemma_row_count_mono`.
pub proof fn lemma_grid_count_mono(g1: Seq<Vec<Cell>>, g2: Seq<Vec<Cell>>, p: spec_fn(Cell) -> bool)
    requires
        g1.len() == g2.len(),
        forall|j: int| 0 <= j < g1.len() ==> (#[trigger] g1[j])@.len() == g2[j]@.len(),
        forall|x: int, y: int|
            0 <= y < g1.len() && 0 <= x < g1[y]@.len() && p(#[trigger] g2[y]@[x]) ==> p(g1[y]@[x]),
    ensures
        grid_count(g2, p) <= grid_count(g1, p),
        (exists|x: int, y: int|
            0 <= y < g1.len() && 0 <= x < g1[y]@.len() && p(#[trigger] g1[y]@[x]) && !p(g2[y]@[x]))
            ==> grid_count(g2, p) < grid_count(g1, p),
    decreases g1.len(),
{
    if g1.len() > 0 {
        let n = g1.len() - 1;
        let a = g1.drop_last();
        let b = g2.drop_last();
        assert forall|x: int, y: int|
            0 <= y < a.len() && 0 <= x < a[y]@.len() && p(#[trigger] b[y]@[x]) implies p(a[y]@[x]) by {
            assert(b[y] == g2[y] && a[y] == g1[y]);
        }
        assert forall|j: int| 0 <= j < a.len() implies (#[trigger] a[j])@.len() == b[j]@.len() by {
            assert(b[j] == g2[j] && a[j] == g1[j]);
        }
        lemma_grid_count_mono(a, b, p);
        assert forall|i: int| 0 <= i < g1[n]@.len() && p(#[trigger] g2[n]@[i]) implies p(g1[n]@[i]) by {}
        lemma_row_count_mono(g1[n]@, g2[n]@, p);
        if exists|x: int, y: int|
            0 <= y < g1.len() && 0 <= x < g1[y]@.len() && p(#[trigger] g1[y]@[x]) && !p(g2[y]@[x]) {
            let (x, y) = choose|x: int, y: int|
                0 <= y < g1.len() && 0 <= x < g1[y]@.len() && p(#[trigger] g1[y]@[x]) && !p(g2[y]@[x]);
            if y < n {
                assert(p(a[y]@[x]) && !p(b[y]@[x]));
            } else {
                assert(p(g1[n]@[x]) && !p(g2[n]@[x]));
            }
        }
    }
}

/// The grid version of `lemma_row_count_split`.
pub proof fn lemma_grid_count_split(g: Seq<Vec<Cell>>, p: spec_fn(Cell) -> bool, q: spec_fn(Cell) -> bool, w: int)
    requires
        forall|c: Cell| #[trigger] p(c) == !q(c),
        forall|j: int| 0 <= j < g.len() ==> (#[trigger] g[j])@.len() == w,
    ensures
        grid_count(g, p) + grid_count(g, q) == g.len() * w,
    decreases g.len(),
{
    if g.len() > 0 {
        lemma_grid_count_split(g.drop_last(), p, q, w);
        lemma_row_count_split(g.last()@, p, q);
        assert(g.len() * w == (g.len() - 1) * w + w) by (nonlinear_arith);
    }
}

/// Grids of one shape whose cells agree on `p` have the same count.
pub proof fn lemma_grid_count_same(g1: Seq<Vec<Cell>>, g2: Seq<Vec<Cell>>, p: spec_fn(Cell) -> bool)
    requires
        g1.len() == g2.len(),
        forall|j: int| 0 <= j < g1.len() ==> (#[trigger] g1[j])@.len() == g2[j]@.len(),
        forall|x: int, y: int|
            0 <= y < g1.len() && 0 <= x < g1[y]@.len() ==> p(#[trigger] g1[y]@[x]) == p(g2[y]@[x]),
    ensures
        grid_count(g1, p) == grid_count(g2, p),
{
    assert forall|j: int| 0 <= j < g2.len() implies (#[trigger] g2[j])@.len() == g1[j]@.len() by {
        assert(g1[j]@.len() == g2[j]@.len());
    }
    assert forall|x: int, y: int|
        0 <= y < g2.len() && 0 <= x < g2[y]@.len() && p(#[trigger] g1[y]@[x]) implies p(g2[y]@[x]) by {
        assert(g1[y]@.len() == g2[y]@.len());
    }
    assert forall|x: int, y: int|
        0 <= y < g1.len() && 0 <= x < g1[y]@.len() && p(#[trigger] g2[y]@[x]) implies p(g1[y]@[x]) by {
        assert(p(g1[y]@[x]) == p(g2[y]@[x]));
    }
    lemma_grid_count_mono(g1, g2, p);
    lemma_grid_count_mono(g2, g1, p);
}

/// Predicates that agree on the cells of a grid count it alike.
pub proof fn lemma_grid_count_same_preds(g: Seq<Vec<Cell>>, p: spec_fn(Cell) -> bool, q: spec_fn(Cell) -> bool)
    requires
        forall|x: int, y: int| 0 <= y < g.len() && 0 <= x < g[y]@.len() ==> p(#[trigger] g[y]@[x]) == q(g[y]@[x]),
    ensures
        grid_count(g, p) == grid_count(g, q),
    decreases g.len(),
{
    if g.len() > 0 {
        let a = g.drop_last();
        assert forall|x: int, y: int| 0 <= y < a.len() && 0 <= x < a[y]@.len() implies p(#[trigger] a[y]@[x]) == q(a[y]@[x]) by {
            assert(a[y] == g[y]);
        }
        lemma_grid_count_same_preds(a, p, q);
        lemma_row_count_same_preds(g.last()@, p, q);
    }
}

proof fn lemma_row_count_same_preds(r: Seq<Cell>, p: spec_fn(Cell) -> bool, q: spec_fn(Cell) -> bool)
    requires
        forall|i: int| 0 <= i < r.len() ==> p(#[trigger] r[i]) == q(r[i]),
    ensures
        row_count(r, p) == row_count(r, q),
    decreases r.len(),
{
    if r.len() > 0 {
        assert(p(r[r.len() - 1]) == q(r[r.len() - 1]));
        lemma_row_count_same_preds(r.drop_last(), p, q);
    }
}

pub proof fn lemma_row_count_none(r: Seq<Cell>, p: spec_fn(Cell) -> bool)
    requires
        forall|i: int| 0 <= i < r.len() ==> !p(#[trigger] r[i]),
    ensures
        row_count(r, p) == 0,
    decreases r.len(),
{
    if r.len() > 0 {
        assert(!p(r[r.len() - 1]));
        lemma_row_count_none(r.drop_last(), p);
    }
}

pub proof fn lemma_grid_count_none(g: Seq<Vec<Cell>>, p: spec_fn(Cell) -> bool)
    requires
        forall|x: int, y: int| 0 <= y < g.len() && 0 <= x < g[y]@.len() ==> !p(#[trigger] g[y]@[x]),
    ensures
        grid_count(g, p) == 0,
    decreases g.len(),
{
    if g.len() > 0 {
        let n = g.len() - 1;
        assert forall|i: int| 0 <= i < g[n]@.len() implies !p(#[trigger] g[n]@[i]) by {}
        lemma_row_count_none(g[n]@, p);
        let a = g.drop_last();
        assert forall|x: int, y: int| 0 <= y < a.len() && 0 <= x < a[y]@.len() implies !p(#[trigger] a[y]@[x]) by {
            assert(a[y] == g[y]);
        }
        lemma_grid_count_none(a, p);
    }
}

/// Where `p` is only ever lost, the count falls by the cells that lost it.
pub proof fn lemma_row_count_lost(r1: Seq<Cell>, r2: Seq<Cell>, p: spec_fn(Cell) -> bool)
    requires
        r1.len() == r2.len(),
        forall|i: int| 0 <= i < r1.len() && p(#[trigger] r2[i]) ==> p(r1[i]),
    ensures
        row_count(r1, p) == row_count(r2, p) + row_count2(r1, r2, lost(p)),
    decreases r1.len(),
{
    if r1.len() > 0 {
        let a = r1.drop_last();
        let b = r2.drop_last();
        assert forall|i: int| 0 <= i < a.len() && p(#[trigger] b[i]) implies p(a[i]) by {
            assert(b[i] == r2[i]);
        }
        lemma_row_count_lost(a, b, p);
        let n = r1.len() - 1;
        assert(p(r2[n]) ==> p(r1[n]));
        assert(lost(p)(r1.last(), r2.last()) == (p(r1.last()) && !p(r2.last())));
    }
}

/// The grid version of `lemma_row_count_lost`.
pub proof fn lemma_grid_count_lost(g1: Seq<Vec<Cell>>, g2: Seq<Vec<Cell>>, p: spec_fn(Cell) -> bool)
    requires
        g1.len() == g2.len(),
        forall|j: int| 0 <= j < g1.len() ==> (#[trigger] g1[j])@.len() == g2[j]@.len(),
        forall|x: int, y: int|
            0 <= y < g1.len() && 0 <= x < g1[y]@.len() && p(#[trigger] g2[y]@[x]) ==> p(g1[y]@[x]),
    ensures
        grid_count(g1, p) == grid_count(g2, p) + grid_count2(g1, g2, lost(p)),
    decreases g1.len(),
{
    if g1.len() > 0 {
        let n = g1.len() - 1;
        let a = g1.drop_last();
        let b = g2.drop_last();
        assert forall|x: int, y: int|
            0 <= y < a.len() && 0 <= x < a[y]@.len() && p(#[trigger] b[y]@[x]) implies p(a[y]@[x]) by {
            assert(b[y] == g2[y] && a[y] == g1[y]);
        }
        assert forall|j: int| 0 <= j < a.len() implies (#[trigger] a[j])@.len() == b[j]@.len() by {
            assert(b[j] == g2[j] && a[j] == g1[j]);
        }
        lemma_grid_count_lost(a, b, p);
        assert(g1[n]@.len() == g2[n]@.len());
        assert forall|i: int| 0 <= i < g1[n]@.len() && p(#[trigger] g2[n]@[i]) implies p(g1[n]@[i]) by {}
        lemma_row_count_lost(g1[n]@, g2[n]@, p);
    }
}

} // verus!
