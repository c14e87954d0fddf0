//! Cell stores for the scan-conversion rasterizer.
//!
//! A cell records the signed cover and area contributions of one pixel of
//! one scanline. Cells are linked into per-row singly-linked lists, ordered
//! by strictly ascending `x`; at most one cell exists per `(x, y)`, and a
//! second contribution at the same spot is added into the existing cell.
//!
//! Two stores with identical semantics are provided: [`HeapStorage`] keeps
//! plain vectors and is meant to be retained across calls, while
//! [`AdaptiveStorage`] starts from fixed inline arrays and spills to the
//! heap only when a rasterization outgrows them.
//!
//! The abstract content of a store is its sequence of rows, each row a
//! sequence of [`RowCell`] values sorted by `x`; the linked structure is
//! tracked by a ghost sequence of index chains.

use crate::fixed::{wadd, FixedPoint};
use vstd::pervasive::VecAdditionalExecFns;
use vstd::prelude::*;

verus! {

/// One record per pixel touched by the path, linked into a row list.
/// `next` is the index of the cell to the right, or `-1` at the row's end.
#[derive(Copy, Clone, PartialEq, Eq, Structural, Debug)]
pub struct Cell {
    pub x: i32,
    pub cover: i32,
    pub area: i32,
    pub next: i32,
}

/// The contribution recorded for one pixel of one row, stripped of the
/// link that chains cells together.
#[derive(Copy, Clone, PartialEq, Eq, Structural, Debug)]
pub struct RowCell {
    pub x: i32,
    pub cover: i32,
    pub area: i32,
}

/// The visible content of a stored cell.
pub open spec fn row_cell_of(c: Cell) -> RowCell {
    RowCell { x: c.x, cover: c.cover, area: c.area }
}

/// The contents of one row, read off along its chain of cell indices.
pub open spec fn row_of(cells: Seq<Cell>, ch: Seq<int>) -> Seq<RowCell> {
    Seq::new(ch.len(), |j: int| row_cell_of(cells[ch[j]]))
}

/// The contents of every row of a store.
pub open spec fn rows_of(cells: Seq<Cell>, chains: Seq<Seq<int>>) -> Seq<Seq<RowCell>> {
    Seq::new(chains.len(), |r: int| row_of(cells, chains[r]))
}

/// A well-formed row chain: `head` is its first index (or -1 when empty),
/// consecutive cells are linked through `next`, the last link is -1, the
/// indices lie below `count`, and the `x` positions are strictly increasing
/// within `[xlo, xhi)`.
pub open spec fn wf_row(
    cells: Seq<Cell>,
    head: i32,
    ch: Seq<int>,
    count: int,
    xlo: int,
    xhi: int,
) -> bool {
    &&& (if ch.len() == 0 {
        head == -1
    } else {
        head as int == ch[0]
    })
    &&& forall|j: int| 0 <= j < ch.len() ==> 0 <= #[trigger] ch[j] < count
    &&& forall|j: int| 0 <= j < ch.len() ==> xlo <= (#[trigger] cells[ch[j]].x as int) < xhi
    &&& forall|j: int| 0 <= j < ch.len() - 1 ==> (#[trigger] cells[ch[j]].next as int) == ch[j + 1]
    &&& (ch.len() > 0 ==> cells[ch[ch.len() - 1]].next == -1)
    &&& forall|j: int|
        0 <= j < ch.len() - 1 ==> (#[trigger] cells[ch[j]].x as int) < cells[ch[j + 1]].x as int
}

/// No cell index appears twice, within one chain or across two.
#[verifier::opaque]
pub open spec fn chains_disjoint(chains: Seq<Seq<int>>) -> bool {
    forall|r1: int, j1: int, r2: int, j2: int|
        0 <= r1 < chains.len() && 0 <= j1 < chains[r1].len() && 0 <= r2 < chains.len() && 0 <= j2
            < chains[r2].len() && (r1 != r2 || j1 != j2) ==> #[trigger] chains[r1][j1]
            != #[trigger] chains[r2][j2]
}

/// Two distinct chain positions of a disjoint family hold distinct indices.
proof fn lemma_disjoint_at(chains: Seq<Seq<int>>, r1: int, j1: int, r2: int, j2: int)
    requires
        chains_disjoint(chains),
        0 <= r1 < chains.len(),
        0 <= j1 < chains[r1].len(),
        0 <= r2 < chains.len(),
        0 <= j2 < chains[r2].len(),
        r1 != r2 || j1 != j2,
    ensures
        chains[r1][j1] != chains[r2][j2],
{
    reveal(chains_disjoint);
}

/// Sum of the chain lengths: the number of live cells.
pub open spec fn total_len(chains: Seq<Seq<int>>) -> int
    decreases chains.len(),
{
    if chains.len() == 0 {
        0
    } else {
        total_len(chains.drop_last()) + chains.last().len()
    }
}

/// Well-formedness of a whole store: one chain per row, every chain
/// well-formed, chains disjoint, and the live-cell count both matches the
/// chains and stays below the capacity that `i32` indices allow.
pub open spec fn wf_store(
    cells: Seq<Cell>,
    idx: Seq<i32>,
    chains: Seq<Seq<int>>,
    count: int,
    xlo: int,
    xhi: int,
) -> bool {
    &&& chains.len() == idx.len()
    &&& 0 <= count <= cells.len()
    &&& count == total_len(chains)
    &&& xlo < xhi
    &&& (xhi - xlo) * idx.len() < 0x7fff_ffff
    &&& forall|r: int|
        0 <= r < idx.len() ==> wf_row(cells, idx[r], #[trigger] chains[r], count, xlo, xhi)
    &&& chains_disjoint(chains)
}

/// What `set` does to one row: add a cell's cover and area into the
/// existing cell at `x`, or insert a fresh cell, keeping the row sorted.
pub open spec fn row_set(row: Seq<RowCell>, x: i32, area: i32, cover: i32) -> Seq<RowCell>
    decreases row.len(),
{
    if row.len() == 0 {
        seq![RowCell { x, cover, area }]
    } else if (x as int) < (row[0].x as int) {
        seq![RowCell { x, cover, area }].add(row)
    } else if x == row[0].x {
        row.update(
            0,
            RowCell { x, cover: wadd(row[0].cover, cover), area: wadd(row[0].area, area) },
        )
    } else {
        seq![row[0]].add(row_set(row.subrange(1, row.len() as int), x, area, cover))
    }
}

/// In a row whose first `j` cells lie left of `x` and whose cell `j` sits
/// exactly at `x`, `row_set` merges into cell `j`.
proof fn lemma_row_set_merge(row: Seq<RowCell>, j: int, x: i32, area: i32, cover: i32)
    requires
        0 <= j < row.len(),
        row[j].x == x,
        forall|k: int| 0 <= k < j ==> (#[trigger] row[k].x as int) < x as int,
    ensures
        row_set(row, x, area, cover) == row.update(
            j,
            RowCell { x, cover: wadd(row[j].cover, cover), area: wadd(row[j].area, area) },
        ),
    decreases j,
{
    if j == 0 {
        assert(row_set(row, x, area, cover) =~= row.update(
            0,
            RowCell { x, cover: wadd(row[0].cover, cover), area: wadd(row[0].area, area) },
        ));
    } else {
        let tail = row.subrange(1, row.len() as int);
        lemma_row_set_merge(tail, j - 1, x, area, cover);
        assert(row_set(row, x, area, cover) =~= row.update(
            j,
            RowCell { x, cover: wadd(row[j].cover, cover), area: wadd(row[j].area, area) },
        ));
    }
}

/// In a row whose first `j` cells lie left of `x` and whose cell `j` (if
/// any) lies right of it, `row_set` inserts a fresh cell at position `j`.
proof fn lemma_row_set_insert(row: Seq<RowCell>, j: int, x: i32, area: i32, cover: i32)
    requires
        0 <= j <= row.len(),
        forall|k: int| 0 <= k < j ==> (#[trigger] row[k].x as int) < x as int,
        j < row.len() ==> (x as int) < (row[j].x as int),
    ensures
        row_set(row, x, area, cover) == row.insert(j, RowCell { x, cover, area }),
    decreases j,
{
    if j == 0 {
        assert(row_set(row, x, area, cover) =~= row.insert(0, RowCell { x, cover, area }));
    } else {
        let tail = row.subrange(1, row.len() as int);
        lemma_row_set_insert(tail, j - 1, x, area, cover);
        assert(row_set(row, x, area, cover) =~= row.insert(j, RowCell { x, cover, area }));
    }
}

/// Every cell of a well-formed chain sits at least `j` positions past the
/// left edge, because the `x` positions strictly increase.
proof fn lemma_chain_x_grows(
    cells: Seq<Cell>,
    head: i32,
    ch: Seq<int>,
    count: int,
    xlo: int,
    xhi: int,
    j: int,
)
    requires
        wf_row(cells, head, ch, count, xlo, xhi),
        0 <= j < ch.len(),
    ensures
        xlo + j <= cells[ch[j]].x as int,
    decreases j,
{
    if j > 0 {
        lemma_chain_x_grows(cells, head, ch, count, xlo, xhi, j - 1);
    }
}

/// A well-formed chain cannot hold more cells than the store is wide.
proof fn lemma_row_len_bound(
    cells: Seq<Cell>,
    head: i32,
    ch: Seq<int>,
    count: int,
    xlo: int,
    xhi: int,
)
    requires
        wf_row(cells, head, ch, count, xlo, xhi),
        xlo <= xhi,
    ensures
        ch.len() <= xhi - xlo,
{
    if ch.len() > 0 {
        let last: int = ch.len() - 1;
        lemma_chain_x_grows(cells, head, ch, count, xlo, xhi, last);
        assert(xlo + last <= cells[ch[last]].x as int);
        assert((cells[ch[last]].x as int) < xhi);
        assert(ch.len() == last + 1);
    }
}

/// Summing chains that are each at most `w` long stays below `w` per row.
proof fn lemma_total_len_bound(chains: Seq<Seq<int>>, w: int)
    requires
        forall|r: int| 0 <= r < chains.len() ==> (#[trigger] chains[r].len() as int) <= w,
        0 <= w,
    ensures
        total_len(chains) <= w * chains.len(),
        0 <= total_len(chains),
    decreases chains.len(),
{
    if chains.len() > 0 {
        let pre = chains.drop_last();
        assert(forall|r: int| 0 <= r < pre.len() ==> (#[trigger] pre[r].len() as int) <= w);
        lemma_total_len_bound(pre, w);
        let n = chains.len() as int;
        assert(pre.len() == n - 1);
        assert(w * n == w * (n - 1) + w) by (nonlinear_arith);
    }
}

/// A well-formed store can never hold `i32::MAX` or more live cells, since
/// each row holds at most one cell per `x` position.
proof fn lemma_store_count_bound(
    cells: Seq<Cell>,
    idx: Seq<i32>,
    chains: Seq<Seq<int>>,
    count: int,
    xlo: int,
    xhi: int,
)
    requires
        wf_store(cells, idx, chains, count, xlo, xhi),
    ensures
        0 <= count < 0x7fff_ffff,
{
    assert forall|r: int| 0 <= r < chains.len() implies (#[trigger] chains[r].len() as int) <= xhi
        - xlo by {
        lemma_row_len_bound(cells, idx[r], chains[r], count, xlo, xhi);
    };
    lemma_total_len_bound(chains, xhi - xlo);
    assert((xhi - xlo) * chains.len() == (xhi - xlo) * idx.len());
}

/// Replacing one chain changes the total length by the difference of that
/// chain's lengths.
proof fn lemma_total_len_update(chains: Seq<Seq<int>>, r: int, ch: Seq<int>)
    requires
        0 <= r < chains.len(),
    ensures
        total_len(chains.update(r, ch)) == total_len(chains) - chains[r].len() + ch.len(),
    decreases chains.len(),
{
    let upd = chains.update(r, ch);
    if r == chains.len() - 1 {
        assert(upd.drop_last() =~= chains.drop_last());
        assert(upd.last() == ch);
    } else {
        lemma_total_len_update(chains.drop_last(), r, ch);
        assert(upd.drop_last() =~= chains.drop_last().update(r, ch));
        assert(upd.last() == chains.last());
    }
}

/// Adding into the existing cell `j` of row `r` preserves well-formedness
/// and performs `row_set` on that row's content, leaving the others alone.
#[verifier::rlimit(100)]
#[verifier::spinoff_prover]
proof fn lemma_store_merge(
    cells: Seq<Cell>,
    idx: Seq<i32>,
    chains: Seq<Seq<int>>,
    count: int,
    xlo: int,
    xhi: int,
    r: int,
    j: int,
    x: i32,
    area: i32,
    cover: i32,
)
    requires
        wf_store(cells, idx, chains, count, xlo, xhi),
        0 <= r < chains.len(),
        0 <= j < chains[r].len(),
        cells[chains[r][j]].x == x,
        forall|k: int| 0 <= k < j ==> (#[trigger] cells[chains[r][k]].x as int) < x as int,
    ensures
        ({
            let p = chains[r][j];
            let c2 = (Cell {
                x,
                cover: wadd(cells[p].cover, cover),
                area: wadd(cells[p].area, area),
                next: cells[p].next,
            });
            let cells2 = cells.update(p, c2);
            &&& wf_store(cells2, idx, chains, count, xlo, xhi)
            &&& rows_of(cells2, chains) == rows_of(cells, chains).update(
                r,
                row_set(row_of(cells, chains[r]), x, area, cover),
            )
        }),
{
    let p = chains[r][j];
    let c2 = (Cell {
        x,
        cover: wadd(cells[p].cover, cover),
        area: wadd(cells[p].area, area),
        next: cells[p].next,
    });
    let cells2 = cells.update(p, c2);
    assert(forall|i: int|
        0 <= i < cells.len() ==> (#[trigger] cells2[i]).x == cells[i].x && cells2[i].next
            == cells[i].next);
    assert forall|r2: int| 0 <= r2 < idx.len() implies wf_row(
        cells2,
        idx[r2],
        #[trigger] chains[r2],
        count,
        xlo,
        xhi,
    ) by {
        assert(wf_row(cells, idx[r2], chains[r2], count, xlo, xhi));
    };
    let rows1 = rows_of(cells, chains);
    let rows2 = rows_of(cells2, chains);
    let row1 = row_of(cells, chains[r]);
    assert forall|k: int| 0 <= k < j implies (#[trigger] row1[k].x as int) < x as int by {
        assert((cells[chains[r][k]].x as int) < x as int);
    };
    lemma_row_set_merge(row1, j, x, area, cover);
    let target = rows1.update(r, row_set(row1, x, area, cover));
    assert forall|r2: int| 0 <= r2 < rows2.len() implies rows2[r2] == target[r2] by {
        if r2 == r {
            assert forall|j2: int| 0 <= j2 < chains[r].len() implies row_of(cells2, chains[r])[j2]
                == target[r][j2] by {
                if j2 != j {
                    lemma_disjoint_at(chains, r, j2, r, j);
                }
            };
            assert(rows2[r2] =~= target[r2]);
        } else {
            assert forall|j2: int| 0 <= j2 < chains[r2].len() implies row_of(cells2, chains[r2])[j2]
                == rows1[r2][j2] by {
                lemma_disjoint_at(chains, r2, j2, r, j);
            };
            assert(rows2[r2] =~= rows1[r2]);
        }
    };
    assert(rows2 =~= target);
}

/// The relation between a store and its state after a fresh cell carrying
/// `(x, cover, area)` has been appended at index `count` and spliced into
/// row `r` at position `j`: only the predecessor's link (or the row head)
/// changes besides the appended cell itself.
pub open spec fn insert_shape(
    cells: Seq<Cell>,
    idx: Seq<i32>,
    chains: Seq<Seq<int>>,
    count: int,
    xlo: int,
    xhi: int,
    r: int,
    j: int,
    x: i32,
    area: i32,
    cover: i32,
    cells2: Seq<Cell>,
    idx2: Seq<i32>,
) -> bool {
    &&& wf_store(cells, idx, chains, count, xlo, xhi)
    &&& 0 <= r < chains.len()
    &&& 0 <= j <= chains[r].len()
    &&& xlo <= (x as int) && (x as int) < xhi
    &&& forall|k: int| 0 <= k < j ==> (#[trigger] cells[chains[r][k]].x as int) < x as int
    &&& (j < chains[r].len() ==> (x as int) < cells[chains[r][j]].x as int)
    &&& count < cells2.len()
    &&& cells2[count] == (Cell {
        x,
        cover,
        area,
        next: if j < chains[r].len() {
            chains[r][j] as i32
        } else {
            -1i32
        },
    })
    &&& forall|i: int|
        0 <= i < count && !(j > 0 && i == chains[r][j - 1]) ==> #[trigger] cells2[i] == cells[i]
    &&& (j > 0 ==> cells2[chains[r][j - 1]] == (Cell {
        x: cells[chains[r][j - 1]].x,
        cover: cells[chains[r][j - 1]].cover,
        area: cells[chains[r][j - 1]].area,
        next: count as i32,
    }))
    &&& idx2 == (if j == 0 {
        idx.update(r, count as i32)
    } else {
        idx
    })
}

/// Splicing a fresh cell into row `r` preserves well-formedness.
#[verifier::rlimit(100)]
#[verifier::spinoff_prover]
proof fn lemma_store_insert_wf(
    cells: Seq<Cell>,
    idx: Seq<i32>,
    chains: Seq<Seq<int>>,
    count: int,
    xlo: int,
    xhi: int,
    r: int,
    j: int,
    x: i32,
    area: i32,
    cover: i32,
    cells2: Seq<Cell>,
    idx2: Seq<i32>,
)
    requires
        insert_shape(cells, idx, chains, count, xlo, xhi, r, j, x, area, cover, cells2, idx2),
    ensures
        wf_store(cells2, idx2, chains.update(r, chains[r].insert(j, count)), count + 1, xlo, xhi),
{
    let ch = chains[r];
    let ch2 = ch.insert(j, count);
    let chains2 = chains.update(r, ch2);
    lemma_store_count_bound(cells, idx, chains, count, xlo, xhi);
    assert(idx2.len() == idx.len());
    assert(forall|i: int|
        0 <= i < count ==> (#[trigger] cells2[i]).x == cells[i].x && cells2[i].cover
            == cells[i].cover && cells2[i].area == cells[i].area);
    lemma_total_len_update(chains, r, ch2);
    // Well-formedness of the untouched rows.
    assert forall|r2: int| 0 <= r2 < idx.len() && r2 != r implies wf_row(
        cells2,
        idx2[r2],
        #[trigger] chains2[r2],
        count + 1,
        xlo,
        xhi,
    ) by {
        assert(wf_row(cells, idx[r2], chains[r2], count, xlo, xhi));
        assert forall|j2: int| 0 <= j2 < chains[r2].len() - 1 implies (
        #[trigger] cells2[chains[r2][j2]].next as int) == chains[r2][j2 + 1] by {
            if j > 0 {
                lemma_disjoint_at(chains, r2, j2, r, j - 1);
            }
        };
        if chains[r2].len() > 0 {
            if j > 0 {
                lemma_disjoint_at(chains, r2, chains[r2].len() - 1, r, j - 1);
            }
            assert(cells2[chains[r2][chains[r2].len() - 1]].next == -1);
        }
    };
    lemma_insert_row_wf(cells, idx, chains, count, xlo, xhi, r, j, x, area, cover, cells2, idx2);
    lemma_insert_disjoint(chains, r, j, count);
    assert(wf_store(cells2, idx2, chains2, count + 1, xlo, xhi));
}

/// The row that receives the fresh cell stays well-formed.
#[verifier::rlimit(100)]
#[verifier::spinoff_prover]
proof fn lemma_insert_row_wf(
    cells: Seq<Cell>,
    idx: Seq<i32>,
    chains: Seq<Seq<int>>,
    count: int,
    xlo: int,
    xhi: int,
    r: int,
    j: int,
    x: i32,
    area: i32,
    cover: i32,
    cells2: Seq<Cell>,
    idx2: Seq<i32>,
)
    requires
        insert_shape(cells, idx, chains, count, xlo, xhi, r, j, x, area, cover, cells2, idx2),
    ensures
        wf_row(
            cells2,
            idx2[r],
            chains[r].insert(j, count),
            count + 1,
            xlo,
            xhi,
        ),
{
    let ch = chains[r];
    let ch2 = ch.insert(j, count);
    lemma_store_count_bound(cells, idx, chains, count, xlo, xhi);
    assert(forall|i: int|
        0 <= i < count ==> (#[trigger] cells2[i]).x == cells[i].x && cells2[i].cover
            == cells[i].cover && cells2[i].area == cells[i].area);
    assert(wf_row(cells, idx[r], ch, count, xlo, xhi));
    // Well-formedness of the changed row.
    assert forall|j2: int| 0 <= j2 < ch2.len() implies 0 <= #[trigger] ch2[j2] < count + 1 by {
        if j2 < j {
            assert(ch2[j2] == ch[j2]);
        } else if j2 == j {
        } else {
            assert(ch2[j2] == ch[j2 - 1]);
        }
    };
    assert forall|j2: int| 0 <= j2 < ch2.len() implies xlo <= (#[trigger] cells2[ch2[j2]].x as int)
        < xhi by {
        if j2 < j {
            assert(ch2[j2] == ch[j2]);
        } else if j2 == j {
            assert(cells2[count].x == x);
        } else {
            assert(ch2[j2] == ch[j2 - 1]);
        }
    };
    assert forall|j2: int| 0 <= j2 < ch2.len() - 1 implies (
    #[trigger] cells2[ch2[j2]].next as int) == ch2[j2 + 1] by {
        if j2 < j - 1 {
            assert(ch2[j2] == ch[j2] && ch2[j2 + 1] == ch[j2 + 1]);
            lemma_disjoint_at(chains, r, j2, r, j - 1);
        } else if j2 == j - 1 {
            assert(ch2[j2] == ch[j - 1] && ch2[j2 + 1] == count);
        } else if j2 == j {
            assert(ch2[j2] == count && ch2[j2 + 1] == ch[j]);
        } else {
            assert(ch2[j2] == ch[j2 - 1] && ch2[j2 + 1] == ch[j2]);
            if j > 0 {
                lemma_disjoint_at(chains, r, j2 - 1, r, j - 1);
            }
        }
    };
    if ch2.len() > 0 {
        if j == ch.len() {
            assert(ch2[ch2.len() - 1] == count);
            assert(cells2[count].next == -1);
        } else {
            assert(ch2[ch2.len() - 1] == ch[ch.len() - 1]);
            assert(ch.len() - 1 >= j);
            if j > 0 {
                lemma_disjoint_at(chains, r, ch.len() - 1, r, j - 1);
            }
            assert(cells2[ch2[ch2.len() - 1]].next == -1);
        }
    }
    assert forall|j2: int| 0 <= j2 < ch2.len() - 1 implies (#[trigger] cells2[ch2[j2]].x as int)
        < cells2[ch2[j2 + 1]].x as int by {
        if j2 < j - 1 {
            assert(ch2[j2] == ch[j2] && ch2[j2 + 1] == ch[j2 + 1]);
        } else if j2 == j - 1 {
            assert(ch2[j2] == ch[j - 1] && ch2[j2 + 1] == count);
            assert((cells[ch[j - 1]].x as int) < x as int);
        } else if j2 == j {
            assert(ch2[j2] == count && ch2[j2 + 1] == ch[j]);
        } else {
            assert(ch2[j2] == ch[j2 - 1] && ch2[j2 + 1] == ch[j2]);
        }
    };
    assert(if ch2.len() == 0 {
        idx2[r] == -1
    } else {
        idx2[r] as int == ch2[0]
    }) by {
        if j == 0 {
            assert(ch2[0] == count);
            assert(0 <= count < 0x7fff_ffff);
        } else {
            assert(ch2[0] == ch[0]);
        }
    };
}

/// Splicing a fresh index into one chain of a disjoint family keeps the
/// family disjoint, provided the index is new to every chain.
proof fn lemma_insert_disjoint(chains: Seq<Seq<int>>, r: int, j: int, count: int)
    requires
        chains_disjoint(chains),
        0 <= r < chains.len(),
        0 <= j <= chains[r].len(),
        forall|r2: int, j2: int|
            0 <= r2 < chains.len() && 0 <= j2 < chains[r2].len() ==> #[trigger] chains[r2][j2]
                < count,
    ensures
        chains_disjoint(chains.update(r, chains[r].insert(j, count))),
{
    reveal(chains_disjoint);
    let ch = chains[r];
    let ch2 = ch.insert(j, count);
    let chains2 = chains.update(r, ch2);
    assert forall|r1: int, j1: int, r2: int, j2: int|
        0 <= r1 < chains2.len() && 0 <= j1 < chains2[r1].len() && 0 <= r2 < chains2.len() && 0 <= j2
            < chains2[r2].len() && (r1 != r2 || j1 != j2) implies #[trigger] chains2[r1][j1]
        != #[trigger] chains2[r2][j2] by {
        let a1 = if r1 == r && j1 >= j {
            if j1 == j {
                count
            } else {
                ch[j1 - 1]
            }
        } else {
            chains[r1][j1]
        };
        let a2 = if r2 == r && j2 >= j {
            if j2 == j {
                count
            } else {
                ch[j2 - 1]
            }
        } else {
            chains[r2][j2]
        };
        assert(chains2[r1][j1] == a1);
        assert(chains2[r2][j2] == a2);
    };
}

/// Splicing a fresh cell into row `r` performs `row_set` on that row's
/// content and leaves every other row's content alone.
#[verifier::rlimit(100)]
#[verifier::spinoff_prover]
proof fn lemma_store_insert_rows(
    cells: Seq<Cell>,
    idx: Seq<i32>,
    chains: Seq<Seq<int>>,
    count: int,
    xlo: int,
    xhi: int,
    r: int,
    j: int,
    x: i32,
    area: i32,
    cover: i32,
    cells2: Seq<Cell>,
    idx2: Seq<i32>,
)
    requires
        insert_shape(cells, idx, chains, count, xlo, xhi, r, j, x, area, cover, cells2, idx2),
    ensures
        rows_of(cells2, chains.update(r, chains[r].insert(j, count))) == rows_of(
            cells,
            chains,
        ).update(r, row_set(row_of(cells, chains[r]), x, area, cover)),
{
    let ch = chains[r];
    let ch2 = ch.insert(j, count);
    let chains2 = chains.update(r, ch2);
    assert(forall|i: int|
        0 <= i < count ==> (#[trigger] cells2[i]).x == cells[i].x && cells2[i].cover
            == cells[i].cover && cells2[i].area == cells[i].area);
    let rows1 = rows_of(cells, chains);
    let rows2 = rows_of(cells2, chains2);
    let row1 = row_of(cells, ch);
    assert forall|k: int| 0 <= k < j implies (#[trigger] row1[k].x as int) < x as int by {
        assert((cells[ch[k]].x as int) < x as int);
    };
    lemma_row_set_insert(row1, j, x, area, cover);
    let target = rows1.update(r, row_set(row1, x, area, cover));
    assert forall|r2: int| 0 <= r2 < rows2.len() implies rows2[r2] == target[r2] by {
        if r2 == r {
            assert forall|j2: int| 0 <= j2 < ch2.len() implies row_of(cells2, ch2)[j2]
                == target[r][j2] by {
                if j2 < j {
                    assert(ch2[j2] == ch[j2]);
                    assert(row1.insert(j, RowCell { x, cover, area })[j2] == row1[j2]);
                } else if j2 == j {
                    assert(row1.insert(j, RowCell { x, cover, area })[j2] == (RowCell {
                        x,
                        cover,
                        area,
                    }));
                } else {
                    assert(ch2[j2] == ch[j2 - 1]);
                    assert(row1.insert(j, RowCell { x, cover, area })[j2] == row1[j2 - 1]);
                }
            };
            assert(rows2[r2] =~= target[r2]);
        } else {
            assert forall|j2: int| 0 <= j2 < chains[r2].len() implies row_of(cells2, chains[r2])[j2]
                == rows1[r2][j2] by {
                assert(0 <= chains[r2][j2] < count);
            };
            assert(rows2[r2] =~= rows1[r2]);
        }
    };
    assert(rows2 =~= target);
}

/// Interface shared by the rasterizer's cell stores.
///
/// A store is bound to a pixel rectangle by `reset`, collects contributions
/// through `set`, and exposes its linked rows through `cells` and
/// `indices`. Its abstract content is `store_rows`: one sorted sequence of
/// [`RowCell`] values per scanline.
pub trait RasterStorage: Sized {
    /// The stored cells, as the `cells` slice exposes them.
    spec fn cseq(&self) -> Seq<Cell>;

    /// The per-row head indices, as the `indices` slice exposes them.
    spec fn iseq(&self) -> Seq<i32>;

    /// The chains of cell indices, one per row.
    spec fn links(&self) -> Seq<Seq<int>>;

    /// The number of live cells.
    spec fn count(&self) -> int;

    /// One before the leftmost admissible `x`: the column that collects
    /// cover spilling past the left edge.
    spec fn xlo(&self) -> int;

    /// One past the rightmost admissible `x`.
    spec fn xhi(&self) -> int;

    /// The `y` of the first row.
    spec fn ylo(&self) -> int;

    /// The store's structural invariant.
    spec fn inv(&self) -> bool;

    /// The invariant makes the slices and the chains agree.
    proof fn inv_wf(&self)
        requires
            self.inv(),
        ensures
            wf_store(self.cseq(), self.iseq(), self.links(), self.count(), self.xlo(), self.xhi()),
    ;

    /// Binds the store to the pixel rectangle `[min.x, max.x) x [min.y,
    /// max.y)` and clears every row. Memory is retained, not freed.
    fn reset(&mut self, min: FixedPoint, max: FixedPoint)
        requires
            0 <= min.x <= max.x,
            0 <= min.y <= max.y,
            (max.x - min.x + 1) * (max.y - min.y) < 0x7fff_ffff,
        ensures
            final(self).inv(),
            final(self).links() == Seq::new((max.y - min.y) as nat, |r: int| Seq::<int>::empty()),
            final(self).iseq().len() == max.y - min.y,
            final(self).count() == 0,
            final(self).xlo() == min.x - 1,
            final(self).xhi() == max.x,
            final(self).ylo() == min.y,
    ;

    /// Adds `area` and `cover` into the cell at `(x, y)`, creating it in
    /// sorted position if the row does not hold it yet. The additions wrap,
    /// as all accumulation in the scan converter does.
    fn set(&mut self, x: i32, y: i32, area: i32, cover: i32)
        requires
            old(self).inv(),
            old(self).ylo() <= y < old(self).ylo() + old(self).iseq().len(),
            old(self).xlo() <= x < old(self).xhi(),
        ensures
            final(self).inv(),
            final(self).iseq().len() == old(self).iseq().len(),
            final(self).xlo() == old(self).xlo(),
            final(self).xhi() == old(self).xhi(),
            final(self).ylo() == old(self).ylo(),
            rows_of(final(self).cseq(), final(self).links()) == rows_of(
                old(self).cseq(),
                old(self).links(),
            ).update(
                y - old(self).ylo(),
                row_set(
                    rows_of(old(self).cseq(), old(self).links())[y - old(self).ylo()],
                    x,
                    area,
                    cover,
                ),
            ),
    ;

    /// The stored cells. Only the chained prefix is meaningful.
    fn cells(&self) -> (r: &[Cell])
        requires
            self.inv(),
        ensures
            r@ == self.cseq(),
    ;

    /// The head cell index of each row, `-1` for an empty row.
    fn indices(&self) -> (r: &[i32])
        requires
            self.inv(),
        ensures
            r@ == self.iseq(),
    ;
}

/// A family of empty chains is trivially disjoint.
proof fn lemma_disjoint_trivial(chains: Seq<Seq<int>>)
    requires
        forall|r: int| 0 <= r < chains.len() ==> (#[trigger] chains[r]).len() == 0,
    ensures
        chains_disjoint(chains),
{
    reveal(chains_disjoint);
}

/// All chains of length zero sum to zero live cells.
proof fn lemma_total_len_trivial(chains: Seq<Seq<int>>)
    requires
        forall|r: int| 0 <= r < chains.len() ==> (#[trigger] chains[r]).len() == 0,
    ensures
        total_len(chains) == 0,
    decreases chains.len(),
{
    if chains.len() > 0 {
        lemma_total_len_trivial(chains.drop_last());
    }
}

/// Cell store backed by plain vectors, retained across calls so that later
/// rasterizations reuse the memory.
pub struct HeapStorage {
    min: FixedPoint,
    max: FixedPoint,
    cells: Vec<Cell>,
    indices: Vec<i32>,
    links: Ghost<Seq<Seq<int>>>,
}

impl Default for HeapStorage {
    fn default() -> (d: Self)
        ensures
            d.inv(),
            d.iseq().len() == 0,
            d.count() == 0,
    {
        let d = HeapStorage {
            min: FixedPoint::new(0, 0),
            max: FixedPoint::new(0, 0),
            cells: Vec::new(),
            indices: Vec::new(),
            links: Ghost(Seq::empty()),
        };
        proof {
            lemma_disjoint_trivial(d.links@);
        }
        d
    }
}

impl RasterStorage for HeapStorage {
    closed spec fn cseq(&self) -> Seq<Cell> {
        self.cells@
    }

    closed spec fn iseq(&self) -> Seq<i32> {
        self.indices@
    }

    closed spec fn links(&self) -> Seq<Seq<int>> {
        self.links@
    }

    closed spec fn count(&self) -> int {
        self.cells@.len() as int
    }

    closed spec fn xlo(&self) -> int {
        self.min.x - 1
    }

    closed spec fn xhi(&self) -> int {
        self.max.x as int
    }

    closed spec fn ylo(&self) -> int {
        self.min.y as int
    }

    closed spec fn inv(&self) -> bool {
        &&& wf_store(
            self.cells@,
            self.indices@,
            self.links@,
            self.cells@.len() as int,
            self.min.x - 1,
            self.max.x as int,
        )
        &&& 0 <= self.min.y
    }

    proof fn inv_wf(&self) {
    }

    #[verifier::loop_isolation(false)]
    fn reset(&mut self, min: FixedPoint, max: FixedPoint) {
        self.min = min;
        self.max = max;
        self.cells.clear();
        self.indices.clear();
        let h = (max.y - min.y) as usize;
        let mut i: usize = 0;
        while i < h
            invariant
                i <= h,
                self.indices@ == Seq::new(i as nat, |k: int| -1i32),
                self.cells@.len() == 0,
                self.min == min,
                self.max == max,
            decreases h - i,
        {
            self.indices.push(-1);
            proof {
                assert(self.indices@ =~= Seq::new((i + 1) as nat, |k: int| -1i32));
            }
            i += 1;
        }
        self.links = Ghost(Seq::new(h as nat, |r: int| Seq::<int>::empty()));
        proof {
            lemma_disjoint_trivial(self.links@);
            lemma_total_len_trivial(self.links@);
        }
    }

    fn set(&mut self, x: i32, y: i32, area: i32, cover: i32) {
        let yindex = (y - self.min.y) as usize;
        let (cell_index, last_index, found, j) = self.find_pos(x, yindex);
        if found {
            self.merge_at(x, area, cover, yindex, cell_index, j);
        } else {
            self.insert_new(x, area, cover, yindex, cell_index, last_index, j);
        }
    }

    fn cells(&self) -> (r: &[Cell]) {
        self.cells.as_slice()
    }

    fn indices(&self) -> (r: &[i32]) {
        self.indices.as_slice()
    }
}

impl HeapStorage {
    /// Walks the chain of row `yindex` to the place of `x`: either the
    /// existing cell at `x` (`found`), or the sorted insertion position.
    /// Returns the cell index there (or -1), its predecessor's index (or
    /// -1), and the ghost chain position.
    fn find_pos(&self, x: i32, yindex: usize) -> (res: (i32, i32, bool, Ghost<int>))
        requires
            self.inv(),
            yindex < self.iseq().len(),
        ensures
            ({
                let (cell_index, last_index, found, j) = res;
                let ch = self.links()[yindex as int];
                let cells0 = self.cseq();
                &&& 0 <= j@ <= ch.len()
                &&& (found ==> j@ < ch.len() && cell_index as int == ch[j@] && cells0[ch[j@]].x
                    == x)
                &&& (!found && j@ < ch.len() ==> cell_index as int == ch[j@] && (cells0[ch[j@]].x
                    as int) > x as int)
                &&& (!found && j@ == ch.len() ==> cell_index == -1)
                &&& (j@ == 0 ==> last_index == -1)
                &&& (j@ > 0 ==> last_index as int == ch[j@ - 1])
                &&& forall|k: int| 0 <= k < j@ ==> (#[trigger] cells0[ch[k]].x as int) < x as int
            }),
    {
        let ghost cells0 = self.cells@;
        let ghost idx0 = self.indices@;
        let ghost chains0 = self.links@;
        let ghost count0 = self.cells@.len() as int;
        let ghost r = yindex as int;
        let ghost ch = chains0[r];
        proof {
            assert(wf_row(cells0, idx0[r], ch, count0, self.min.x - 1, self.max.x as int));
        }
        let mut cell_index: i32 = self.indices[yindex];
        let mut last_index: i32 = -1;
        let mut found = false;
        let ghost mut j: int = 0;
        loop
            invariant_except_break
                !found,
            invariant
                count0 == cells0.len(),
                cells0 == self.cells@,
                ch == chains0[r],
                wf_row(cells0, idx0[r], ch, count0, self.min.x - 1, self.max.x as int),
                0 <= j <= ch.len(),
                j < ch.len() ==> cell_index as int == ch[j],
                j == ch.len() ==> cell_index == -1,
                j == 0 ==> last_index == -1,
                j > 0 ==> last_index as int == ch[j - 1],
                forall|k: int| 0 <= k < j ==> (#[trigger] cells0[ch[k]].x as int) < x as int,
            ensures
                0 <= j <= ch.len(),
                found ==> j < ch.len() && cell_index as int == ch[j] && cells0[ch[j]].x == x,
                !found && j < ch.len() ==> cell_index as int == ch[j] && (cells0[ch[j]].x as int)
                    > x as int,
                !found && j == ch.len() ==> cell_index == -1,
                j == 0 ==> last_index == -1,
                j > 0 ==> last_index as int == ch[j - 1],
                forall|k: int| 0 <= k < j ==> (#[trigger] cells0[ch[k]].x as int) < x as int,
            decreases ch.len() - j,
        {
            if cell_index == -1 {
                proof {
                    assert(j == ch.len());
                }
                break;
            }
            let ci = cell_index as usize;
            let cell = self.cells[ci];
            if cell.x > x {
                break;
            }
            if cell.x == x {
                found = true;
                break;
            }
            last_index = cell_index;
            cell_index = cell.next;
            proof {
                j = j + 1;
            }
        }
        (cell_index, last_index, found, Ghost(j))
    }

    /// Folds `(cover, area)` into the existing cell at chain position `j`
    /// of row `yindex`, which the caller has located.
    fn merge_at(
        &mut self,
        x: i32,
        area: i32,
        cover: i32,
        yindex: usize,
        cell_index: i32,
        Ghost(j): Ghost<int>,
    )
        requires
            old(self).inv(),
            yindex < old(self).iseq().len(),
            ({
                let ch = old(self).links()[yindex as int];
                let cells0 = old(self).cseq();
                &&& 0 <= j < ch.len()
                &&& cell_index as int == ch[j]
                &&& cells0[ch[j]].x == x
                &&& forall|k: int| 0 <= k < j ==> (#[trigger] cells0[ch[k]].x as int) < x as int
            }),
        ensures
            final(self).inv(),
            final(self).iseq().len() == old(self).iseq().len(),
            final(self).xlo() == old(self).xlo(),
            final(self).xhi() == old(self).xhi(),
            final(self).ylo() == old(self).ylo(),
            rows_of(final(self).cseq(), final(self).links()) == rows_of(
                old(self).cseq(),
                old(self).links(),
            ).update(
                yindex as int,
                row_set(
                    rows_of(old(self).cseq(), old(self).links())[yindex as int],
                    x,
                    area,
                    cover,
                ),
            ),
    {
        let ghost cells0 = self.cells@;
        let ghost idx0 = self.indices@;
        let ghost chains0 = self.links@;
        let ghost count0 = self.cells@.len() as int;
        let ghost xlo0 = self.min.x - 1 as int;
        let ghost xhi0 = self.max.x as int;
        let ghost r = yindex as int;
        let ghost ch = chains0[r];
        proof {
            assert(wf_row(cells0, idx0[r], ch, count0, xlo0, xhi0));
        }
        let ci = cell_index as usize;
        let cell = self.cells[ci];
        let merged = Cell {
            x: cell.x,
            cover: cell.cover.wrapping_add(cover),
            area: cell.area.wrapping_add(area),
            next: cell.next,
        };
        self.cells.set(ci, merged);
        proof {
            lemma_store_merge(cells0, idx0, chains0, count0, xlo0, xhi0, r, j, x, area, cover);
        }
    }

    /// Appends a fresh cell carrying `(x, cover, area)` and splices it into
    /// row `yindex` before position `j`, which the caller has located by
    /// walking the chain.
    fn insert_new(
        &mut self,
        x: i32,
        area: i32,
        cover: i32,
        yindex: usize,
        cell_index: i32,
        last_index: i32,
        Ghost(j): Ghost<int>,
    )
        requires
            old(self).inv(),
            yindex < old(self).iseq().len(),
            old(self).xlo() <= (x as int) && (x as int) < old(self).xhi(),
            ({
                let ch = old(self).links()[yindex as int];
                let cells0 = old(self).cseq();
                &&& 0 <= j <= ch.len()
                &&& (j < ch.len() ==> cell_index as int == ch[j] && (cells0[ch[j]].x as int)
                    > x as int)
                &&& (j == ch.len() ==> cell_index == -1)
                &&& (j == 0 ==> last_index == -1)
                &&& (j > 0 ==> last_index as int == ch[j - 1])
                &&& forall|k: int| 0 <= k < j ==> (#[trigger] cells0[ch[k]].x as int) < x as int
            }),
        ensures
            final(self).inv(),
            final(self).iseq().len() == old(self).iseq().len(),
            final(self).xlo() == old(self).xlo(),
            final(self).xhi() == old(self).xhi(),
            final(self).ylo() == old(self).ylo(),
            rows_of(final(self).cseq(), final(self).links()) == rows_of(
                old(self).cseq(),
                old(self).links(),
            ).update(
                yindex as int,
                row_set(
                    rows_of(old(self).cseq(), old(self).links())[yindex as int],
                    x,
                    area,
                    cover,
                ),
            ),
    {
        let ghost cells0 = self.cells@;
        let ghost idx0 = self.indices@;
        let ghost chains0 = self.links@;
        let ghost count0 = self.cells@.len() as int;
        let ghost xlo0 = self.min.x - 1 as int;
        let ghost xhi0 = self.max.x as int;
        let ghost r = yindex as int;
        let ghost ch = chains0[r];
        proof {
            lemma_store_count_bound(cells0, idx0, chains0, count0, xlo0, xhi0);
            assert(wf_row(cells0, idx0[r], ch, count0, xlo0, xhi0));
            if j > 0 {
                assert(0 <= ch[j - 1] < count0);
            }
        }
        let new_index = self.cells.len();
        let cell = Cell { x, cover, area, next: cell_index };
        if last_index != -1 {
            let li = last_index as usize;
            let prev = self.cells[li];
            let relinked = Cell {
                x: prev.x,
                cover: prev.cover,
                area: prev.area,
                next: new_index as i32,
            };
            self.cells.set(li, relinked);
        } else {
            self.indices.set(yindex, new_index as i32);
        }
        self.cells.push(cell);
        self.links = Ghost(chains0.update(r, ch.insert(j, new_index as int)));
        proof {
            // Bridge the caller-shaped facts about `old(self)` onto the
            // local ghost names before folding them into `insert_shape`.
            assert(ch == old(self).links()[yindex as int]);
            assert(cells0 == old(self).cseq());
            assert(forall|k: int|
                0 <= k < j ==> (#[trigger] old(self).cseq()[old(self).links()[yindex as int][k]].x
                    as int) < x as int);
            assert(forall|k: int|
                0 <= k < j ==> (#[trigger] cells0[ch[k]].x as int) < x as int);
            assert(insert_shape(
                cells0,
                idx0,
                chains0,
                count0,
                xlo0,
                xhi0,
                r,
                j,
                x,
                area,
                cover,
                self.cells@,
                self.indices@,
            ));
            lemma_store_insert_wf(
                cells0,
                idx0,
                chains0,
                count0,
                xlo0,
                xhi0,
                r,
                j,
                x,
                area,
                cover,
                self.cells@,
                self.indices@,
            );
            lemma_store_insert_rows(
                cells0,
                idx0,
                chains0,
                count0,
                xlo0,
                xhi0,
                r,
                j,
                x,
                area,
                cover,
                self.cells@,
                self.indices@,
            );
        }
    }
}

/// Number of cells held inline by [`AdaptiveStorage`] before it spills.
const MAX_CELLS: usize = 1024;

/// Number of row heads held inline by [`AdaptiveStorage`].
const MAX_BAND: usize = 512;

/// Cell store that starts from fixed inline arrays and moves to the heap
/// only when a rasterization outgrows them, so that small targets touch no
/// allocator at all.
pub struct AdaptiveStorage {
    min: FixedPoint,
    max: FixedPoint,
    height: usize,
    cell_count: usize,
    cells: [Cell; MAX_CELLS],
    heap_cells: Vec<Cell>,
    indices: [i32; MAX_BAND],
    heap_indices: Vec<i32>,
    links: Ghost<Seq<Seq<int>>>,
}

impl AdaptiveStorage {
    /// The inline/heap bookkeeping: the heap vectors are in use exactly
    /// when the inline arrays have been outgrown.
    closed spec fn aok(&self) -> bool {
        &&& self.height as int == self.max.y - self.min.y
        &&& (self.cell_count > MAX_CELLS ==> self.heap_cells@.len() == self.cell_count)
        &&& (self.cell_count <= MAX_CELLS ==> self.heap_cells@.len() == 0)
        &&& (self.height > MAX_BAND ==> self.heap_indices@.len() == self.height)
        &&& (self.height <= MAX_BAND)
            || (self.height > MAX_BAND)
    }

    /// Creates a storage bound to an empty rectangle.
    pub fn new() -> (s: Self)
        ensures
            s.inv(),
            s.iseq().len() == 0,
            s.count() == 0,
    {
        let s = AdaptiveStorage {
            min: FixedPoint::new(0, 0),
            max: FixedPoint::new(0, 0),
            height: 0,
            cell_count: 0,
            cells: [Cell { x: 0, cover: 0, area: 0, next: 0 }; MAX_CELLS],
            heap_cells: Vec::new(),
            indices: [-1i32; MAX_BAND],
            heap_indices: Vec::new(),
            links: Ghost(Seq::empty()),
        };
        proof {
            lemma_disjoint_trivial(s.links@);
            assert(s.iseq() =~= Seq::<i32>::empty());
        }
        s
    }

    /// Reads the stored cell at `i`, from whichever side is live.
    fn cell_at(&self, i: usize) -> (c: Cell)
        requires
            self.aok(),
            i < self.cseq().len(),
        ensures
            c == self.cseq()[i as int],
    {
        if self.cell_count > MAX_CELLS {
            self.heap_cells[i]
        } else {
            self.cells[i]
        }
    }

    /// Overwrites the live cell at `i`, on whichever side is live.
    fn put_cell(&mut self, i: usize, c: Cell)
        requires
            old(self).aok(),
            i < old(self).cell_count,
        ensures
            final(self).aok(),
            final(self).cseq() == old(self).cseq().update(i as int, c),
            final(self).iseq() == old(self).iseq(),
            final(self).links() == old(self).links(),
            final(self).count() == old(self).count(),
            final(self).cell_count == old(self).cell_count,
            final(self).min == old(self).min,
            final(self).max == old(self).max,
            final(self).height == old(self).height,
    {
        proof {
            assert(old(self).cell_count <= MAX_CELLS ==> i < MAX_CELLS);
        }
        if self.cell_count > MAX_CELLS {
            self.heap_cells.set(i, c);
        } else {
            self.cells[i] = c;
        }
    }

    /// Writes the row head at `i`, on whichever side is live.
    fn put_index(&mut self, i: usize, v: i32)
        requires
            old(self).aok(),
            i < old(self).iseq().len(),
        ensures
            final(self).aok(),
            final(self).iseq() == old(self).iseq().update(i as int, v),
            final(self).cseq() == old(self).cseq(),
            final(self).links() == old(self).links(),
            final(self).count() == old(self).count(),
            final(self).cell_count == old(self).cell_count,
            final(self).min == old(self).min,
            final(self).max == old(self).max,
            final(self).height == old(self).height,
    {
        if self.height > MAX_BAND {
            self.heap_indices.set(i, v);
        } else {
            self.indices[i] = v;
            proof {
                assert(final(self).iseq() =~= old(self).iseq().update(i as int, v));
            }
        }
    }

    /// Reads the row head at `i`, from whichever side is live.
    fn index_at(&self, i: usize) -> (v: i32)
        requires
            self.aok(),
            i < self.iseq().len(),
        ensures
            v == self.iseq()[i as int],
    {
        if self.height > MAX_BAND {
            self.heap_indices[i]
        } else {
            self.indices[i]
        }
    }

    /// Appends a cell at index `cell_count`, spilling the inline array to
    /// the heap when it is full.
    fn append_cell(&mut self, c: Cell)
        requires
            old(self).aok(),
            old(self).cell_count < 0x7fff_ffff,
        ensures
            final(self).aok(),
            final(self).cell_count == old(self).cell_count + 1,
            final(self).count() == old(self).count() + 1,
            old(self).count() < final(self).cseq().len(),
            forall|i: int|
                0 <= i < old(self).count() ==> #[trigger] final(self).cseq()[i] == old(
                    self,
                ).cseq()[i],
            final(self).cseq()[old(self).count()] == c,
            final(self).iseq() == old(self).iseq(),
            final(self).links() == old(self).links(),
            final(self).min == old(self).min,
            final(self).max == old(self).max,
            final(self).height == old(self).height,
    {
        if self.cell_count > MAX_CELLS {
            self.heap_cells.push(c);
        } else if self.cell_count == MAX_CELLS {
            let ghost inline0 = self.cells@;
            let mut i: usize = 0;
            while i < MAX_CELLS
                invariant
                    i <= MAX_CELLS,
                    self.heap_cells@ == inline0.subrange(0, i as int),
                    self.cells@ == inline0,
                    self.cell_count == MAX_CELLS,
                    self.min == old(self).min,
                    self.max == old(self).max,
                    self.height == old(self).height,
                    self.heap_indices@ == old(self).heap_indices@,
                    self.indices@ == old(self).indices@,
                    self.links@ == old(self).links@,
                decreases MAX_CELLS - i,
            {
                let cc = self.cells[i];
                self.heap_cells.push(cc);
                proof {
                    assert(self.heap_cells@ =~= inline0.subrange(0, i + 1));
                }
                i += 1;
            }
            proof {
                assert(self.heap_cells@ =~= inline0);
            }
            self.heap_cells.push(c);
        } else {
            let cc = self.cell_count;
            self.cells[cc] = c;
        }
        self.cell_count = self.cell_count + 1;
    }
}

impl RasterStorage for AdaptiveStorage {
    closed spec fn cseq(&self) -> Seq<Cell> {
        if self.cell_count > MAX_CELLS {
            self.heap_cells@
        } else {
            self.cells@
        }
    }

    closed spec fn iseq(&self) -> Seq<i32> {
        if self.height > MAX_BAND {
            self.heap_indices@
        } else {
            self.indices@.subrange(0, self.height as int)
        }
    }

    closed spec fn links(&self) -> Seq<Seq<int>> {
        self.links@
    }

    closed spec fn count(&self) -> int {
        self.cell_count as int
    }

    closed spec fn xlo(&self) -> int {
        self.min.x - 1
    }

    closed spec fn xhi(&self) -> int {
        self.max.x as int
    }

    closed spec fn ylo(&self) -> int {
        self.min.y as int
    }

    closed spec fn inv(&self) -> bool {
        &&& self.aok()
        &&& wf_store(
            self.cseq(),
            self.iseq(),
            self.links@,
            self.cell_count as int,
            self.min.x - 1,
            self.max.x as int,
        )
        &&& 0 <= self.min.y
    }

    proof fn inv_wf(&self) {
    }

    fn reset(&mut self, min: FixedPoint, max: FixedPoint) {
        self.min = min;
        self.max = max;
        let h = (max.y - min.y) as usize;
        self.height = h;
        self.cell_count = 0;
        self.heap_cells.clear();
        self.heap_indices.clear();
        if h > MAX_BAND {
            let mut i: usize = 0;
            while i < h
                invariant
                    i <= h,
                    self.heap_indices@ == Seq::new(i as nat, |k: int| -1i32),
                    self.min == min,
                    self.max == max,
                    self.height == h,
                    self.cell_count == 0,
                    self.heap_cells@.len() == 0,
                decreases h - i,
            {
                self.heap_indices.push(-1);
                proof {
                    assert(self.heap_indices@ =~= Seq::new((i + 1) as nat, |k: int| -1i32));
                }
                i += 1;
            }
        } else {
            let mut i: usize = 0;
            while i < h
                invariant
                    i <= h,
                    h <= MAX_BAND,
                    forall|k: int| 0 <= k < i ==> self.indices@[k] == -1i32,
                    self.min == min,
                    self.max == max,
                    self.height == h,
                    self.cell_count == 0,
                    self.heap_cells@.len() == 0,
                    self.heap_indices@.len() == 0,
                decreases h - i,
            {
                self.indices[i] = -1;
                i += 1;
            }
        }
        self.links = Ghost(Seq::new(h as nat, |r: int| Seq::<int>::empty()));
        proof {
            lemma_disjoint_trivial(self.links@);
            lemma_total_len_trivial(self.links@);
            assert(self.iseq().len() == h);
            assert forall|r: int| 0 <= r < h implies self.iseq()[r] == -1i32 by {}
        }
    }

    fn set(&mut self, x: i32, y: i32, area: i32, cover: i32) {
        let yindex = (y - self.min.y) as usize;
        let (cell_index, last_index, found, j) = self.find_pos(x, yindex);
        if found {
            self.merge_at(x, area, cover, yindex, cell_index, j);
        } else {
            self.insert_new(x, area, cover, yindex, cell_index, last_index, j);
        }
    }

    fn cells(&self) -> (r: &[Cell]) {
        if self.cell_count > MAX_CELLS {
            self.heap_cells.as_slice()
        } else {
            vstd::array::array_as_slice(&self.cells)
        }
    }

    fn indices(&self) -> (r: &[i32]) {
        if self.height > MAX_BAND {
            self.heap_indices.as_slice()
        } else {
            vstd::slice::slice_subrange(vstd::array::array_as_slice(&self.indices), 0, self.height)
        }
    }
}

impl AdaptiveStorage {
    /// Walks the chain of row `yindex` to the place of `x`, as
    /// [`HeapStorage::find_pos`] does.
    fn find_pos(&self, x: i32, yindex: usize) -> (res: (i32, i32, bool, Ghost<int>))
        requires
            self.inv(),
            yindex < self.iseq().len(),
        ensures
            ({
                let (cell_index, last_index, found, j) = res;
                let ch = self.links()[yindex as int];
                let cells0 = self.cseq();
                &&& 0 <= j@ <= ch.len()
                &&& (found ==> j@ < ch.len() && cell_index as int == ch[j@] && cells0[ch[j@]].x
                    == x)
                &&& (!found && j@ < ch.len() ==> cell_index as int == ch[j@] && (cells0[ch[j@]].x
                    as int) > x as int)
                &&& (!found && j@ == ch.len() ==> cell_index == -1)
                &&& (j@ == 0 ==> last_index == -1)
                &&& (j@ > 0 ==> last_index as int == ch[j@ - 1])
                &&& forall|k: int| 0 <= k < j@ ==> (#[trigger] cells0[ch[k]].x as int) < x as int
            }),
    {
        let ghost cells0 = self.cseq();
        let ghost idx0 = self.iseq();
        let ghost chains0 = self.links@;
        let ghost count0 = self.cell_count as int;
        let ghost r = yindex as int;
        let ghost ch = chains0[r];
        proof {
            assert(wf_row(cells0, idx0[r], ch, count0, self.min.x - 1, self.max.x as int));
        }
        let mut cell_index: i32 = self.index_at(yindex);
        let mut last_index: i32 = -1;
        let mut found = false;
        let ghost mut j: int = 0;
        loop
            invariant_except_break
                !found,
            invariant
                self.aok(),
                count0 == self.cell_count as int,
                cells0 == self.cseq(),
                count0 <= cells0.len(),
                ch == chains0[r],
                wf_row(cells0, idx0[r], ch, count0, self.min.x - 1, self.max.x as int),
                0 <= j <= ch.len(),
                j < ch.len() ==> cell_index as int == ch[j],
                j == ch.len() ==> cell_index == -1,
                j == 0 ==> last_index == -1,
                j > 0 ==> last_index as int == ch[j - 1],
                forall|k: int| 0 <= k < j ==> (#[trigger] cells0[ch[k]].x as int) < x as int,
            ensures
                0 <= j <= ch.len(),
                found ==> j < ch.len() && cell_index as int == ch[j] && cells0[ch[j]].x == x,
                !found && j < ch.len() ==> cell_index as int == ch[j] && (cells0[ch[j]].x as int)
                    > x as int,
                !found && j == ch.len() ==> cell_index == -1,
                j == 0 ==> last_index == -1,
                j > 0 ==> last_index as int == ch[j - 1],
                forall|k: int| 0 <= k < j ==> (#[trigger] cells0[ch[k]].x as int) < x as int,
            decreases ch.len() - j,
        {
            if cell_index == -1 {
                proof {
                    assert(j == ch.len());
                }
                break;
            }
            let ci = cell_index as usize;
            let cell = self.cell_at(ci);
            if cell.x > x {
                break;
            }
            if cell.x == x {
                found = true;
                break;
            }
            last_index = cell_index;
            cell_index = cell.next;
            proof {
                j = j + 1;
            }
        }
        (cell_index, last_index, found, Ghost(j))
    }

    /// Folds `(cover, area)` into the existing cell at chain position `j`
    /// of row `yindex`, as [`HeapStorage::merge_at`] does.
    fn merge_at(
        &mut self,
        x: i32,
        area: i32,
        cover: i32,
        yindex: usize,
        cell_index: i32,
        Ghost(j): Ghost<int>,
    )
        requires
            old(self).inv(),
            yindex < old(self).iseq().len(),
            ({
                let ch = old(self).links()[yindex as int];
                let cells0 = old(self).cseq();
                &&& 0 <= j < ch.len()
                &&& cell_index as int == ch[j]
                &&& cells0[ch[j]].x == x
                &&& forall|k: int| 0 <= k < j ==> (#[trigger] cells0[ch[k]].x as int) < x as int
            }),
        ensures
            final(self).inv(),
            final(self).iseq().len() == old(self).iseq().len(),
            final(self).xlo() == old(self).xlo(),
            final(self).xhi() == old(self).xhi(),
            final(self).ylo() == old(self).ylo(),
            rows_of(final(self).cseq(), final(self).links()) == rows_of(
                old(self).cseq(),
                old(self).links(),
            ).update(
                yindex as int,
                row_set(
                    rows_of(old(self).cseq(), old(self).links())[yindex as int],
                    x,
                    area,
                    cover,
                ),
            ),
    {
        let ghost cells0 = self.cseq();
        let ghost idx0 = self.iseq();
        let ghost chains0 = self.links@;
        let ghost count0 = self.cell_count as int;
        let ghost xlo0 = self.min.x - 1 as int;
        let ghost xhi0 = self.max.x as int;
        let ghost r = yindex as int;
        let ghost ch = chains0[r];
        proof {
            assert(wf_row(cells0, idx0[r], ch, count0, xlo0, xhi0));
        }
        let ci = cell_index as usize;
        let cell = self.cell_at(ci);
        let merged = Cell {
            x: cell.x,
            cover: cell.cover.wrapping_add(cover),
            area: cell.area.wrapping_add(area),
            next: cell.next,
        };
        self.put_cell(ci, merged);
        proof {
            lemma_store_merge(cells0, idx0, chains0, count0, xlo0, xhi0, r, j, x, area, cover);
        }
    }

    /// Appends a fresh cell carrying `(x, cover, area)` and splices it into
    /// row `yindex` before position `j`, as [`HeapStorage::insert_new`]
    /// does.
    fn insert_new(
        &mut self,
        x: i32,
        area: i32,
        cover: i32,
        yindex: usize,
        cell_index: i32,
        last_index: i32,
        Ghost(j): Ghost<int>,
    )
        requires
            old(self).inv(),
            yindex < old(self).iseq().len(),
            old(self).xlo() <= (x as int) && (x as int) < old(self).xhi(),
            ({
                let ch = old(self).links()[yindex as int];
                let cells0 = old(self).cseq();
                &&& 0 <= j <= ch.len()
                &&& (j < ch.len() ==> cell_index as int == ch[j] && (cells0[ch[j]].x as int)
                    > x as int)
                &&& (j == ch.len() ==> cell_index == -1)
                &&& (j == 0 ==> last_index == -1)
                &&& (j > 0 ==> last_index as int == ch[j - 1])
                &&& forall|k: int| 0 <= k < j ==> (#[trigger] cells0[ch[k]].x as int) < x as int
            }),
        ensures
            final(self).inv(),
            final(self).iseq().len() == old(self).iseq().len(),
            final(self).xlo() == old(self).xlo(),
            final(self).xhi() == old(self).xhi(),
            final(self).ylo() == old(self).ylo(),
            rows_of(final(self).cseq(), final(self).links()) == rows_of(
                old(self).cseq(),
                old(self).links(),
            ).update(
                yindex as int,
                row_set(
                    rows_of(old(self).cseq(), old(self).links())[yindex as int],
                    x,
                    area,
                    cover,
                ),
            ),
    {
        let ghost cells0 = self.cseq();
        let ghost idx0 = self.iseq();
        let ghost chains0 = self.links@;
        let ghost count0 = self.cell_count as int;
        let ghost xlo0 = self.min.x - 1 as int;
        let ghost xhi0 = self.max.x as int;
        let ghost r = yindex as int;
        let ghost ch = chains0[r];
        proof {
            lemma_store_count_bound(cells0, idx0, chains0, count0, xlo0, xhi0);
            assert(wf_row(cells0, idx0[r], ch, count0, xlo0, xhi0));
            if j > 0 {
                assert(0 <= ch[j - 1] < count0);
            }
        }
        let new_index = self.cell_count;
        let cell = Cell { x, cover, area, next: cell_index };
        if last_index != -1 {
            let li = last_index as usize;
            let prev = self.cell_at(li);
            let relinked = Cell {
                x: prev.x,
                cover: prev.cover,
                area: prev.area,
                next: new_index as i32,
            };
            self.put_cell(li, relinked);
        } else {
            self.put_index(yindex, new_index as i32);
        }
        self.append_cell(cell);
        self.links = Ghost(chains0.update(r, ch.insert(j, new_index as int)));
        proof {
            // Bridge the caller-shaped facts about `old(self)` onto the
            // local ghost names before folding them into `insert_shape`.
            assert(ch == old(self).links()[yindex as int]);
            assert(cells0 == old(self).cseq());
            assert(forall|k: int|
                0 <= k < j ==> (#[trigger] old(self).cseq()[old(self).links()[yindex as int][k]].x
                    as int) < x as int);
            assert(forall|k: int|
                0 <= k < j ==> (#[trigger] cells0[ch[k]].x as int) < x as int);
            assert(insert_shape(
                cells0,
                idx0,
                chains0,
                count0,
                xlo0,
                xhi0,
                r,
                j,
                x,
                area,
                cover,
                self.cseq(),
                self.iseq(),
            ));
            lemma_store_insert_wf(
                cells0,
                idx0,
                chains0,
                count0,
                xlo0,
                xhi0,
                r,
                j,
                x,
                area,
                cover,
                self.cseq(),
                self.iseq(),
            );
            lemma_store_insert_rows(
                cells0,
                idx0,
                chains0,
                count0,
                xlo0,
                xhi0,
                r,
                j,
                x,
                area,
                cover,
                self.cseq(),
                self.iseq(),
            );
        }
    }
}

/// One row's total cover, as a plain integer sum of its (wrapped) cells.
pub open spec fn row_cover_sum(row: Seq<RowCell>) -> int
    decreases row.len(),
{
    if row.len() == 0 {
        0
    } else {
        row_cover_sum(row.drop_last()) + row.last().cover
    }
}

/// A whole store's total cover.
pub open spec fn rows_cover_sum(rows: Seq<Seq<RowCell>>) -> int
    decreases rows.len(),
{
    if rows.len() == 0 {
        0
    } else {
        rows_cover_sum(rows.drop_last()) + row_cover_sum(rows.last())
    }
}

/// Integers equal modulo the `i32` value range: what wrapping arithmetic
/// preserves.
pub open spec fn wrap_eq(a: int, b: int) -> bool {
    a % 0x1_0000_0000 == b % 0x1_0000_0000
}

/// A one-cell row's cover sum is that cell's cover.
proof fn lemma_singleton_cover_sum(c: RowCell)
    ensures
        row_cover_sum(seq![c]) == c.cover,
{
    assert(seq![c].len() == 1);
    assert(seq![c].drop_last() =~= Seq::<RowCell>::empty());
    assert(seq![c].last() == c);
    assert(row_cover_sum(Seq::<RowCell>::empty()) == 0);
    assert(row_cover_sum(seq![c]) == row_cover_sum(seq![c].drop_last()) + seq![c].last().cover);
}

/// Adding a contribution into a row raises its total cover by exactly that
/// contribution, up to `i32` wrap-around.
pub proof fn lemma_row_set_cover_sum(row: Seq<RowCell>, x: i32, area: i32, cover: i32)
    ensures
        wrap_eq(row_cover_sum(row_set(row, x, area, cover)), row_cover_sum(row) + cover),
    decreases row.len(),
{
    let upd = row_set(row, x, area, cover);
    if row.len() == 0 {
        assert(upd =~= seq![RowCell { x, cover, area }]);
        lemma_singleton_cover_sum(RowCell { x, cover, area });
    } else if (x as int) < (row[0].x as int) {
        lemma_snoc_cover_sum(seq![RowCell { x, cover, area }], row);
        assert(upd =~= seq![RowCell { x, cover, area }].add(row));
        lemma_singleton_cover_sum(RowCell { x, cover, area });
    } else if x == row[0].x {
        let merged = RowCell { x, cover: wadd(row[0].cover, cover), area: wadd(row[0].area, area) };
        lemma_update_cover_sum(row, 0, merged);
        assert(wadd(row[0].cover, cover) as int % 0x1_0000_0000 == (row[0].cover + cover)
            % 0x1_0000_0000) by {
            vstd::arithmetic::div_mod::lemma_mod_sub_multiples_vanish(
                row[0].cover + cover,
                0x1_0000_0000,
            );
            vstd::arithmetic::div_mod::lemma_mod_add_multiples_vanish(
                row[0].cover + cover,
                0x1_0000_0000,
            );
        }
        vstd::arithmetic::div_mod::lemma_add_mod_noop(
            row_cover_sum(row) - row[0].cover,
            wadd(row[0].cover, cover) as int,
            0x1_0000_0000,
        );
        vstd::arithmetic::div_mod::lemma_add_mod_noop(
            row_cover_sum(row) - row[0].cover,
            row[0].cover + cover,
            0x1_0000_0000,
        );
    } else {
        let tail = row.subrange(1, row.len() as int);
        lemma_row_set_cover_sum(tail, x, area, cover);
        lemma_head_cover_sum(row);
        assert(upd =~= seq![row[0]].add(row_set(tail, x, area, cover)));
        lemma_head_cover_sum(upd);
        assert(upd.subrange(1, upd.len() as int) =~= row_set(tail, x, area, cover));
        vstd::arithmetic::div_mod::lemma_add_mod_noop(
            row[0].cover as int,
            row_cover_sum(row_set(tail, x, area, cover)),
            0x1_0000_0000,
        );
        vstd::arithmetic::div_mod::lemma_add_mod_noop(
            row[0].cover as int,
            row_cover_sum(tail) + cover,
            0x1_0000_0000,
        );
    }
}

/// A row's cover sum splits off its head cell.
proof fn lemma_head_cover_sum(row: Seq<RowCell>)
    requires
        row.len() > 0,
    ensures
        row_cover_sum(row) == row[0].cover + row_cover_sum(row.subrange(1, row.len() as int)),
    decreases row.len(),
{
    if row.len() == 1 {
        assert(row.drop_last() =~= Seq::<RowCell>::empty());
        assert(row.subrange(1, 1) =~= Seq::<RowCell>::empty());
    } else {
        let pre = row.drop_last();
        lemma_head_cover_sum(pre);
        assert(pre.subrange(1, pre.len() as int) =~= row.subrange(1, row.len() as int).drop_last());
        assert(row.subrange(1, row.len() as int).last() == row.last());
    }
}

/// A row's cover sum over a concatenation adds up.
proof fn lemma_snoc_cover_sum(a: Seq<RowCell>, b: Seq<RowCell>)
    ensures
        row_cover_sum(a.add(b)) == row_cover_sum(a) + row_cover_sum(b),
    decreases b.len(),
{
    if b.len() == 0 {
        assert(a.add(b) =~= a);
    } else {
        lemma_snoc_cover_sum(a, b.drop_last());
        assert(a.add(b).drop_last() =~= a.add(b.drop_last()));
        assert(a.add(b).last() == b.last());
    }
}

/// Updating one cell of a row shifts the sum by the cover difference.
proof fn lemma_update_cover_sum(row: Seq<RowCell>, j: int, c: RowCell)
    requires
        0 <= j < row.len(),
    ensures
        row_cover_sum(row.update(j, c)) == row_cover_sum(row) - row[j].cover + c.cover,
    decreases row.len(),
{
    let upd = row.update(j, c);
    if j == row.len() - 1 {
        assert(upd.drop_last() =~= row.drop_last());
        assert(upd.last() == c);
    } else {
        lemma_update_cover_sum(row.drop_last(), j, c);
        assert(upd.drop_last() =~= row.drop_last().update(j, c));
        assert(upd.last() == row.last());
    }
}

/// Replacing one row of a store shifts the total by the row difference.
pub proof fn lemma_rows_update_cover_sum(rows: Seq<Seq<RowCell>>, r: int, row: Seq<RowCell>)
    requires
        0 <= r < rows.len(),
    ensures
        rows_cover_sum(rows.update(r, row)) == rows_cover_sum(rows) - row_cover_sum(rows[r])
            + row_cover_sum(row),
    decreases rows.len(),
{
    let upd = rows.update(r, row);
    if r == rows.len() - 1 {
        assert(upd.drop_last() =~= rows.drop_last());
        assert(upd.last() == row);
    } else {
        lemma_rows_update_cover_sum(rows.drop_last(), r, row);
        assert(upd.drop_last() =~= rows.drop_last().update(r, row));
        assert(upd.last() == rows.last());
    }
}

} // verus!
