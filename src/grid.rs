//! The playing field as rows of cells, and the goals it leaves open.

use vstd::prelude::*;
use crate::cell::{Cell, CellType};

verus! {

/// Every row of the field holds `w` cells and there are `h` rows.
pub open spec fn field_shaped(g: Seq<Seq<Cell>>, w: int, h: int) -> bool {
    &&& g.len() == h
    &&& forall|j: int| 0 <= j < h ==> (#[trigger] g[j]).len() == w
}

pub open spec fn inside(x: int, y: int, w: int, h: int) -> bool {
    0 <= x < w && 0 <= y < h
}

/// The field with the cell at column `x`, row `y` replaced.
pub open spec fn put(g: Seq<Seq<Cell>>, x: int, y: int, c: Cell) -> Seq<Seq<Cell>> {
    g.update(y, g[y].update(x, c))
}

/// The field with the contents at `(x, y)` changed and its goal marker kept.
pub open spec fn put_kind(g: Seq<Seq<Cell>>, x: int, y: int, k: CellType) -> Seq<Seq<Cell>> {
    put(g, x, y, Cell { kind: k, goal: g[y][x].goal })
}

pub open spec fn open_in_row(r: Seq<Cell>) -> nat
    decreases r.len(),
{
    if r.len() == 0 {
        0
    } else {
        open_in_row(r.drop_last()) + if r.last().open_goal() {
            1nat
        } else {
            0nat
        }
    }
}

/// How many goals of the field hold no block.
pub open spec fn open_goals(g: Seq<Seq<Cell>>) -> nat
    decreases g.len(),
{
    if g.len() == 0 {
        0
    } else {
        open_goals(g.drop_last()) + open_in_row(g.last())
    }
}

pub open spec fn open_count(c: Cell) -> int {
    if c.open_goal() {
        1
    } else {
        0
    }
}

pub proof fn lemma_row_update(r: Seq<Cell>, i: int, c: Cell)
    requires
        0 <= i < r.len(),
    ensures
        open_in_row(r.update(i, c)) == open_in_row(r) - open_count(r[i]) + open_count(c),
    decreases r.len(),
{
    let u = r.update(i, c);
    if i < r.len() - 1 {
        lemma_row_update(r.drop_last(), i, c);
        assert(u.drop_last() =~= r.drop_last().update(i, c));
    } else {
        assert(u.drop_last() =~= r.drop_last());
    }
}

pub proof fn lemma_put(g: Seq<Seq<Cell>>, x: int, y: int, c: Cell)
    requires
        0 <= y < g.len(),
        0 <= x < g[y].len(),
    ensures
        open_goals(put(g, x, y, c)) == open_goals(g) - open_count(g[y][x]) + open_count(c),
    decreases g.len(),
{
    let u = put(g, x, y, c);
    lemma_row_update(g[y], x, c);
    if y < g.len() - 1 {
        lemma_put(g.drop_last(), x, y, c);
        assert(u.drop_last() =~= put(g.drop_last(), x, y, c));
    } else {
        assert(u.drop_last() =~= g.drop_last());
    }
}

pub proof fn lemma_row_bound(r: Seq<Cell>)
    ensures
        open_in_row(r) <= r.len(),
    decreases r.len(),
{
    if r.len() > 0 {
        lemma_row_bound(r.drop_last());
    }
}

/// A field of `h` rows of `w` cells has at most `w * h` open goals.
pub proof fn lemma_open_bound(g: Seq<Seq<Cell>>, w: int, h: int)
    requires
        field_shaped(g, w, h),
        w >= 0,
    ensures
        open_goals(g) <= w * h,
    decreases h,
{
    if h > 0 {
        let d = g.drop_last();
        assert(field_shaped(d, w, h - 1)) by {
            assert forall|j: int| 0 <= j < h - 1 implies (#[trigger] d[j]).len() == w by {
                assert(d[j] == g[j]);
            }
        }
        lemma_open_bound(d, w, h - 1);
        lemma_row_bound(g.last());
        assert(g.last() == g[h - 1]);
        assert(w * (h - 1) + w == w * h) by (nonlinear_arith);
    }
}

/// No goal is left open exactly when the count of open goals is zero.
pub proof fn lemma_no_open_goals(g: Seq<Seq<Cell>>)
    ensures
        open_goals(g) == 0 <==> forall|j: int, i: int|
            0 <= j < g.len() && 0 <= i < g[j].len() ==> !(#[trigger] g[j][i]).open_goal(),
    decreases g.len(),
{
    if g.len() > 0 {
        let d = g.drop_last();
        lemma_no_open_goals(d);
        lemma_row_zero(g.last());
        if open_goals(g) == 0 {
            assert forall|j: int, i: int|
                0 <= j < g.len() && 0 <= i < g[j].len() implies !(#[trigger] g[j][i]).open_goal() by {
                if j < g.len() - 1 {
                    assert(d[j] == g[j]);
                } else {
                    assert(g.last() == g[j]);
                }
            }
        } else {
            if open_goals(d) != 0 {
                let (j, i) = choose|j: int, i: int|
                    0 <= j < d.len() && 0 <= i < d[j].len() && (#[trigger] d[j][i]).open_goal();
                assert(d[j] == g[j]);
                assert(g[j][i].open_goal());
            } else {
                let i = choose|i: int| 0 <= i < g.last().len() && (#[trigger] g.last()[i]).open_goal();
                assert(g[g.len() - 1][i].open_goal());
            }
        }
    }
}

proof fn lemma_row_zero(r: Seq<Cell>)
    ensures
        open_in_row(r) == 0 <==> forall|i: int| 0 <= i < r.len() ==> !(#[trigger] r[i]).open_goal(),
    decreases r.len(),
{
    if r.len() > 0 {
        let d = r.drop_last();
        lemma_row_zero(d);
        if open_in_row(r) == 0 {
            assert forall|i: int| 0 <= i < r.len() implies !(#[trigger] r[i]).open_goal() by {
                if i < r.len() - 1 {
                    assert(d[i] == r[i]);
                }
            }
        } else if open_in_row(d) != 0 {
            let i = choose|i: int| 0 <= i < d.len() && (#[trigger] d[i]).open_goal();
            assert(d[i] == r[i]);
        }
    }
}

pub open spec fn exit_count(c: Cell) -> nat {
    if c.kind == CellType::Exit {
        1
    } else {
        0
    }
}

pub open spec fn exits_in_row(r: Seq<Cell>) -> nat
    decreases r.len(),
{
    if r.len() == 0 {
        0
    } else {
        exits_in_row(r.drop_last()) + exit_count(r.last())
    }
}

/// How many cells of the field are exits.
pub open spec fn exits(g: Seq<Seq<Cell>>) -> nat
    decreases g.len(),
{
    if g.len() == 0 {
        0
    } else {
        exits(g.drop_last()) + exits_in_row(g.last())
    }
}

pub proof fn lemma_row_update_exits(r: Seq<Cell>, i: int, c: Cell)
    requires
        0 <= i < r.len(),
    ensures
        exits_in_row(r.update(i, c)) == exits_in_row(r) - exit_count(r[i]) + exit_count(c),
    decreases r.len(),
{
    let u = r.update(i, c);
    if i < r.len() - 1 {
        lemma_row_update_exits(r.drop_last(), i, c);
        assert(u.drop_last() =~= r.drop_last().update(i, c));
    } else {
        assert(u.drop_last() =~= r.drop_last());
    }
}

pub proof fn lemma_put_exits(g: Seq<Seq<Cell>>, x: int, y: int, c: Cell)
    requires
        0 <= y < g.len(),
        0 <= x < g[y].len(),
    ensures
        exits(put(g, x, y, c)) == exits(g) - exit_count(g[y][x]) + exit_count(c),
    decreases g.len(),
{
    let u = put(g, x, y, c);
    lemma_row_update_exits(g[y], x, c);
    if y < g.len() - 1 {
        lemma_put_exits(g.drop_last(), x, y, c);
        assert(u.drop_last() =~= put(g.drop_last(), x, y, c));
    } else {
        assert(u.drop_last() =~= g.drop_last());
    }
}

} // verus!
