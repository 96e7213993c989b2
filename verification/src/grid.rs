//! Cell arithmetic of the uniform grids that bucket boids by position: the
//! clamped cell of a position and the 3x3 block of cells around a cell.

use vstd::prelude::*;

verus! {

/// The grid cell, in row-major order, of column `cx` and row `cy`, each
/// clamped to the last column and row.
pub open spec fn cell_of(cx: int, cy: int, cols: int, rows: int) -> int {
    let x = if cx < cols - 1 { cx } else { cols - 1 };
    let y = if cy < rows - 1 { cy } else { rows - 1 };
    y * cols + x
}

/// A grid's shape is usable: at least one column and one row, and the
/// numbering of every cell fits both `usize` and `isize`.
pub open spec fn shape_ok(cols: int, rows: int) -> bool {
    &&& cols >= 1
    &&& rows >= 1
    &&& cols * rows <= isize::MAX
}

proof fn lemma_cell_in_grid(x: int, y: int, cols: int, rows: int)
    requires
        0 <= x < cols,
        0 <= y < rows,
    ensures
        0 <= y * cols + x < cols * rows,
{
    assert(0 <= y * cols) by (nonlinear_arith)
        requires 0 <= y, 0 <= cols;
    assert(y * cols + x < cols * rows) by (nonlinear_arith)
        requires 0 <= x < cols, 0 <= y < rows;
}

/// The cell of column `cx` and row `cy`, clamped to the grid.
pub fn clamp_cell(cx: usize, cy: usize, cols: usize, rows: usize) -> (cell: usize)
    requires
        shape_ok(cols as int, rows as int),
    ensures
        cell == cell_of(cx as int, cy as int, cols as int, rows as int),
        cell < cols * rows,
{
    let x = if cx < cols - 1 { cx } else { cols - 1 };
    let y = if cy < rows - 1 { cy } else { rows - 1 };
    proof {
        lemma_cell_in_grid(x as int, y as int, cols as int, rows as int);
    }
    y * cols + x
}

/// The `k`-th cell of the 3x3 block around column `cx` and row `cy`, taken
/// row by row from the row above, when it lies inside the grid.
pub open spec fn neighbor_at(cx: int, cy: int, cols: int, rows: int, k: int) -> Option<int> {
    let nx = cx + (k % 3 - 1);
    let ny = cy + (k / 3 - 1);
    if 0 <= nx < cols && 0 <= ny < rows {
        Some(ny * cols + nx)
    } else {
        None
    }
}

/// The cells among the first `k` of the block that lie inside the grid, in
/// block order.
pub open spec fn neighbors_upto(cx: int, cy: int, cols: int, rows: int, k: nat) -> Seq<usize>
    decreases k,
{
    if k == 0 {
        Seq::empty()
    } else {
        let prev = neighbors_upto(cx, cy, cols, rows, (k - 1) as nat);
        match neighbor_at(cx, cy, cols, rows, k - 1) {
            Some(c) => prev.push(c as usize),
            None => prev,
        }
    }
}

/// The cells of the 3x3 block around column `cx` and row `cy` that lie
/// inside the grid, row by row from the row above, each row left to right.
pub open spec fn block_cells(cx: int, cy: int, cols: int, rows: int) -> Seq<usize> {
    neighbors_upto(cx, cy, cols, rows, 9)
}

proof fn lemma_neighbors_upto_in_grid(cx: int, cy: int, cols: int, rows: int, k: nat)
    requires
        shape_ok(cols, rows),
    ensures
        neighbors_upto(cx, cy, cols, rows, k).len() <= k,
        forall|j: int| 0 <= j < neighbors_upto(cx, cy, cols, rows, k).len()
            ==> (#[trigger] neighbors_upto(cx, cy, cols, rows, k)[j]) < cols * rows,
    decreases k,
{
    if k > 0 {
        lemma_neighbors_upto_in_grid(cx, cy, cols, rows, (k - 1) as nat);
        let i = k - 1;
        let nx = cx + (i % 3 - 1);
        let ny = cy + (i / 3 - 1);
        if 0 <= nx < cols && 0 <= ny < rows {
            lemma_cell_in_grid(nx, ny, cols, rows);
        }
    }
}

/// Every cell of the block around a position lies inside the grid, and
/// there are at most nine of them.
pub proof fn lemma_block_in_grid(cx: int, cy: int, cols: int, rows: int)
    requires
        shape_ok(cols, rows),
    ensures
        block_cells(cx, cy, cols, rows).len() <= 9,
        forall|j: int| 0 <= j < block_cells(cx, cy, cols, rows).len()
            ==> (#[trigger] block_cells(cx, cy, cols, rows)[j]) < cols * rows,
{
    lemma_neighbors_upto_in_grid(cx, cy, cols, rows, 9);
}

proof fn lemma_neighbors_upto_keeps(cx: int, cy: int, cols: int, rows: int, k: nat, x: usize)
    requires
        neighbors_upto(cx, cy, cols, rows, k).contains(x),
    ensures
        forall|m: nat| k <= m ==> #[trigger] neighbors_upto(cx, cy, cols, rows, m).contains(x),
{
    assert forall|m: nat| k <= m implies #[trigger] neighbors_upto(cx, cy, cols, rows, m).contains(x) by {
        lemma_neighbors_upto_keeps_to(cx, cy, cols, rows, k, m, x);
    }
}

proof fn lemma_neighbors_upto_keeps_to(cx: int, cy: int, cols: int, rows: int, k: nat, m: nat, x: usize)
    requires
        k <= m,
        neighbors_upto(cx, cy, cols, rows, k).contains(x),
    ensures
        neighbors_upto(cx, cy, cols, rows, m).contains(x),
    decreases m - k,
{
    if k < m {
        lemma_neighbors_upto_keeps_to(cx, cy, cols, rows, k, (m - 1) as nat, x);
        let prev = neighbors_upto(cx, cy, cols, rows, (m - 1) as nat);
        let j = choose|j: int| 0 <= j < prev.len() && prev[j] == x;
        let cur = neighbors_upto(cx, cy, cols, rows, m);
        assert(cur[j] == x);
    }
}

/// The block around a cell of the grid includes that cell itself.
pub proof fn lemma_block_contains_own_cell(cx: int, cy: int, cols: int, rows: int)
    requires
        shape_ok(cols, rows),
        0 <= cx < cols,
        0 <= cy < rows,
    ensures
        block_cells(cx, cy, cols, rows).contains((cy * cols + cx) as usize),
{
    let own = (cy * cols + cx) as usize;
    let s5 = neighbors_upto(cx, cy, cols, rows, 5);
    assert(4int % 3 - 1 == 0 && 4int / 3 - 1 == 0);
    assert(neighbor_at(cx, cy, cols, rows, 4) == Some(cy * cols + cx));
    assert(s5 == neighbors_upto(cx, cy, cols, rows, 4).push(own));
    assert(s5[s5.len() - 1] == own);
    lemma_neighbors_upto_keeps(cx, cy, cols, rows, 5, own);
}

proof fn lemma_cell_number_injective(x1: int, y1: int, x2: int, y2: int, cols: int)
    requires
        0 <= x1 < cols,
        0 <= x2 < cols,
        y1 * cols + x1 == y2 * cols + x2,
    ensures
        x1 == x2,
        y1 == y2,
{
    assert((y1 - y2) * cols == x2 - x1) by (nonlinear_arith)
        requires y1 * cols + x1 == y2 * cols + x2;
    if y1 > y2 {
        assert((y1 - y2) * cols >= cols) by (nonlinear_arith)
            requires y1 - y2 >= 1, cols >= 1;
    } else if y1 < y2 {
        assert((y2 - y1) * cols >= cols) by (nonlinear_arith)
            requires y2 - y1 >= 1, cols >= 1;
        assert((y1 - y2) * cols == -((y2 - y1) * cols)) by (nonlinear_arith);
    }
}

proof fn lemma_neighbor_at_injective(cx: int, cy: int, cols: int, rows: int, k1: int, k2: int)
    requires
        0 <= k1 < 9,
        0 <= k2 < 9,
        neighbor_at(cx, cy, cols, rows, k1) is Some,
        neighbor_at(cx, cy, cols, rows, k1) == neighbor_at(cx, cy, cols, rows, k2),
    ensures
        k1 == k2,
{
    let nx1 = cx + (k1 % 3 - 1);
    let ny1 = cy + (k1 / 3 - 1);
    let nx2 = cx + (k2 % 3 - 1);
    let ny2 = cy + (k2 / 3 - 1);
    lemma_cell_number_injective(nx1, ny1, nx2, ny2, cols);
}

proof fn lemma_neighbors_upto_from(cx: int, cy: int, cols: int, rows: int, k: nat)
    requires
        shape_ok(cols, rows),
        k <= 9,
    ensures
        neighbors_upto(cx, cy, cols, rows, k).no_duplicates(),
        forall|j: int| 0 <= j < neighbors_upto(cx, cy, cols, rows, k).len() ==> exists|m: int|
            0 <= m < k && neighbor_at(cx, cy, cols, rows, m) == Some(#[trigger] neighbors_upto(cx, cy, cols, rows, k)[j] as int),
    decreases k,
{
    if k > 0 {
        lemma_neighbors_upto_from(cx, cy, cols, rows, (k - 1) as nat);
        lemma_neighbors_upto_in_grid(cx, cy, cols, rows, k);
        let prev = neighbors_upto(cx, cy, cols, rows, (k - 1) as nat);
        let cur = neighbors_upto(cx, cy, cols, rows, k);
        let m = k - 1;
        match neighbor_at(cx, cy, cols, rows, m) {
            Some(c) => {
                assert(cur == prev.push(c as usize));
                let nx = cx + (m % 3 - 1);
                let ny = cy + (m / 3 - 1);
                lemma_cell_in_grid(nx, ny, cols, rows);
                assert((c as usize) as int == c);
                assert forall|a: int, b: int| 0 <= a < cur.len() && 0 <= b < cur.len() && a != b implies cur[a] != cur[b] by {
                    if a < prev.len() && b < prev.len() {
                        assert(cur[a] == prev[a] && cur[b] == prev[b]);
                    } else {
                        let o = if a < prev.len() { a } else { b };
                        assert(cur[o] == prev[o]);
                        let w = choose|w: int| 0 <= w < k - 1 && neighbor_at(cx, cy, cols, rows, w) == Some(#[trigger] prev[o] as int);
                        if prev[o] == c as usize {
                            lemma_neighbor_at_injective(cx, cy, cols, rows, m, w);
                        }
                    }
                }
                assert forall|j: int| 0 <= j < cur.len() implies exists|w: int|
                    0 <= w < k && neighbor_at(cx, cy, cols, rows, w) == Some(#[trigger] cur[j] as int) by {
                    if j < prev.len() {
                        assert(cur[j] == prev[j]);
                        let w = choose|w: int| 0 <= w < k - 1 && neighbor_at(cx, cy, cols, rows, w) == Some(#[trigger] prev[j] as int);
                        assert(neighbor_at(cx, cy, cols, rows, w) == Some(cur[j] as int));
                    } else {
                        assert(neighbor_at(cx, cy, cols, rows, m) == Some(cur[j] as int));
                    }
                }
            },
            None => {
                assert(cur == prev);
                assert forall|j: int| 0 <= j < cur.len() implies exists|w: int|
                    0 <= w < k && neighbor_at(cx, cy, cols, rows, w) == Some(#[trigger] cur[j] as int) by {
                    let w = choose|w: int| 0 <= w < k - 1 && neighbor_at(cx, cy, cols, rows, w) == Some(#[trigger] prev[j] as int);
                }
            },
        }
    }
}

/// The cells of the block around a position are all different.
pub proof fn lemma_block_no_duplicates(cx: int, cy: int, cols: int, rows: int)
    requires
        shape_ok(cols, rows),
    ensures
        block_cells(cx, cy, cols, rows).no_duplicates(),
{
    lemma_neighbors_upto_from(cx, cy, cols, rows, 9);
}

/// The cells of the 3x3 block around column `cx` and row `cy` that lie
/// inside a grid of `cols` by `rows` cells, in the order the block is
/// scanned: rows from `cy - 1` to `cy + 1`, and in each row columns from
/// `cx - 1` to `cx + 1`.
pub fn neighbor_cells(cx: isize, cy: isize, cols: usize, rows: usize) -> (cells: Vec<usize>)
    requires
        shape_ok(cols as int, rows as int),
        isize::MIN < cx < isize::MAX,
        isize::MIN < cy < isize::MAX,
    ensures
        cells@ == block_cells(cx as int, cy as int, cols as int, rows as int),
        cells@.len() <= 9,
        cells@.no_duplicates(),
        forall|j: int| 0 <= j < cells@.len() ==> (#[trigger] cells@[j]) < cols * rows,
{
    let mut cells: Vec<usize> = Vec::new();
    let icols = cols as isize;
    let irows = rows as isize;
    proof {
        assert(cols as int <= cols * rows) by (nonlinear_arith)
            requires rows >= 1, cols >= 1;
        assert(rows as int <= cols * rows) by (nonlinear_arith)
            requires rows >= 1, cols >= 1;
    }
    let mut dy: isize = -1;
    while dy <= 1
        invariant
            -1 <= dy <= 2,
            icols == cols as int,
            irows == rows as int,
            shape_ok(cols as int, rows as int),
            isize::MIN < cx < isize::MAX,
            isize::MIN < cy < isize::MAX,
            cells@ == neighbors_upto(cx as int, cy as int, cols as int, rows as int, ((dy + 1) * 3) as nat),
        decreases 2 - dy,
    {
        let mut dx: isize = -1;
        while dx <= 1
            invariant
                -1 <= dy <= 1,
                -1 <= dx <= 2,
                icols == cols as int,
                irows == rows as int,
                shape_ok(cols as int, rows as int),
                isize::MIN < cx < isize::MAX,
                isize::MIN < cy < isize::MAX,
                cells@ == neighbors_upto(
                    cx as int,
                    cy as int,
                    cols as int,
                    rows as int,
                    ((dy + 1) * 3 + dx + 1) as nat,
                ),
            decreases 2 - dx,
        {
            let nx = cx + dx;
            let ny = cy + dy;
            let ghost k: int = (dy + 1) * 3 + dx + 1;
            assert(k % 3 - 1 == dx && k / 3 - 1 == dy);
            if nx >= 0 && nx < icols && ny >= 0 && ny < irows {
                proof {
                    lemma_cell_in_grid(nx as int, ny as int, cols as int, rows as int);
                }
                let cell_idx = (ny as usize) * cols + (nx as usize);
                cells.push(cell_idx);
            }
            dx = dx + 1;
        }
        dy = dy + 1;
    }
    proof {
        lemma_block_in_grid(cx as int, cy as int, cols as int, rows as int);
        lemma_block_no_duplicates(cx as int, cy as int, cols as int, rows as int);
    }
    cells
}

} // verus!
