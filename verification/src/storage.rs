//! The compute side of the storage gateway: materializing a grid from
//! the rows the durable store returns, and planning the statement
//! sequence a row insertion must run against it.
//!
//! The storage driver itself (queries, connections) lives outside the
//! library; it hands in plain values and takes plain values back.

use vstd::prelude::*;
use crate::cell::TableCell;
use crate::table::Table;
use crate::table::is_empty_row;

verus! {

/// The view of the cell rows loaded from storage: `(row, column,
/// text)` triples, in result-set order.
pub open spec fn rows_view(rows: Seq<(i32, i32, Vec<u8>)>) -> Seq<(i32, i32, Seq<u8>)> {
    rows.map_values(|t: (i32, i32, Vec<u8>)| (t.0, t.1, t.2@))
}

/// The text the loaded triples leave at `(r, c)`: the last triple
/// addressing that cell wins; a cell no triple addresses is empty.
pub open spec fn stored_text_at(rows: Seq<(i32, i32, Seq<u8>)>, r: int, c: int) -> Seq<u8>
    decreases rows.len(),
{
    if rows.len() == 0 {
        Seq::empty()
    } else if rows.last().0 == r && rows.last().1 == c {
        rows.last().2
    } else {
        stored_text_at(rows.drop_last(), r, c)
    }
}

/// Build the in-memory grid of a freshly opened table: `height` rows
/// of `width` unlocked cells, the text of each taken from the loaded
/// triples. Triples addressing a cell outside the table's dimensions
/// are ignored.
pub fn build_table(width: i32, height: i32, rows: &Vec<(i32, i32, Vec<u8>)>) -> (t: Table)
    requires
        0 <= width,
        0 <= height,
    ensures
        t@.wf(),
        t@.width == width as nat,
        t@.height() == height as nat,
        forall|r: int, c: int| 0 <= r < height as int && 0 <= c < width as int ==> {
            let cell = #[trigger] t@.cells[r][c];
            &&& cell.lock is None
            &&& cell.text == stored_text_at(rows_view(rows@), r, c)
        },
{
    let w: usize = width as usize;
    let h: usize = height as usize;
    let mut grid: Vec<Vec<TableCell>> = Vec::new();
    let mut r: usize = 0;
    while r < h
        invariant
            r <= h,
            grid@.len() == r,
            forall|i: int| 0 <= i < r as int ==>
                is_empty_row((#[trigger] grid@[i])@, w as nat),
        decreases h - r,
    {
        let mut row: Vec<TableCell> = Vec::new();
        let mut c: usize = 0;
        while c < w
            invariant
                c <= w,
                row@.len() == c,
                forall|j: int| 0 <= j < c as int ==>
                    (#[trigger] row@[j])@ == crate::table::empty_cell_state(),
            decreases w - c,
        {
            row.push(TableCell { text: Vec::new(), lock: Option::None });
            c = c + 1;
        }
        grid.push(row);
        r = r + 1;
    }
    let mut t = Table { width: w, cells: grid };
    proof {
        assert forall|rr: int, cc: int| 0 <= rr < height as int && 0 <= cc < width as int implies {
            let cell = #[trigger] t@.cells[rr][cc];
            cell.lock is None && cell.text
                == stored_text_at(rows_view(rows@).subrange(0, 0), rr, cc)
        } by {
            assert(t@.cells[rr] == t.cells@[rr]@.map_values(|tc: TableCell| tc@));
            assert(is_empty_row(t.cells@[rr]@, w as nat));
        }
    }
    let mut k: usize = 0;
    while k < rows.len()
        invariant
            k <= rows@.len(),
            0 <= width,
            0 <= height,
            w as int == width as int,
            h as int == height as int,
            t.width == w,
            t@.height() == height as nat,
            t@.wf(),
            forall|rr: int, cc: int| 0 <= rr < height as int && 0 <= cc < width as int ==> {
                let cell = #[trigger] t@.cells[rr][cc];
                &&& cell.lock is None
                &&& cell.text == stored_text_at(rows_view(rows@).subrange(0, k as int), rr, cc)
            },
        decreases rows@.len() - k,
    {
        let (trow, tcol, _) = &rows[k];
        let trow: i32 = *trow;
        let tcol: i32 = *tcol;
        let ghost prefix = rows_view(rows@).subrange(0, k as int);
        let ghost prefix1 = rows_view(rows@).subrange(0, k as int + 1);
        proof {
            assert(prefix1.last() == rows_view(rows@)[k as int]);
            assert(prefix1.drop_last() =~= prefix);
        }
        if 0 <= trow && trow < height && 0 <= tcol && tcol < width {
            let r_us: usize = trow as usize;
            let c_us: usize = tcol as usize;
            let ghost prev_cells = t.cells@;
            let ghost prev_view = t@;
            proof {
                assert(t@.cells[trow as int].len() == t@.width);
                assert(t@.cells[trow as int] == t.cells@[trow as int]@.map_values(
                    |tc: TableCell| tc@));
                assert(prev_cells[trow as int]@.len() == w as nat);
            }
            let text = crate::cell::copy_bytes(&rows[k].2);
            proof {
                assert(r_us as int == trow as int);
                assert(c_us as int == tcol as int);
                assert(t.cells@.len() == height as nat);
                assert(t.cells@[r_us as int]@.len() == w as nat);
                assert(c_us < w);
            }
            let row_ref = &mut t.cells[r_us];
            let cell_ref = &mut row_ref[c_us];
            cell_ref.text = text;
            proof {
                assert(t.cells@.len() == prev_cells.len());
                assert(forall|i: int| 0 <= i < prev_cells.len() && i != trow as int ==>
                    #[trigger] t.cells@[i] == prev_cells[i]);
                assert(t.cells@[trow as int]@.len() == prev_cells[trow as int]@.len());
                assert(forall|j: int| 0 <= j < w as int && j != tcol as int ==>
                    #[trigger] t.cells@[trow as int]@[j] == prev_cells[trow as int]@[j]);
                assert(t.cells@[trow as int]@[tcol as int]@.text == rows_view(rows@)[k as int].2);
                assert(t.cells@[trow as int]@[tcol as int]@.lock
                    == prev_cells[trow as int]@[tcol as int]@.lock);
                assert forall|rr: int| 0 <= rr < t@.cells.len() implies
                    (#[trigger] t@.cells[rr]).len() == t@.width by {
                    assert(t@.cells[rr] == t.cells@[rr]@.map_values(|tc: TableCell| tc@));
                    assert(prev_view.cells[rr] == prev_cells[rr]@.map_values(
                        |tc: TableCell| tc@));
                    if rr != trow as int {
                        assert(t.cells@[rr] == prev_cells[rr]);
                    }
                    assert(prev_view.cells[rr].len() == prev_view.width);
                }
                assert forall|rr: int, cc: int|
                    0 <= rr < height as int && 0 <= cc < width as int implies {
                    let cell = #[trigger] t@.cells[rr][cc];
                    cell.lock is None && cell.text == stored_text_at(prefix1, rr, cc)
                } by {
                    assert(prev_view.cells[rr] == prev_cells[rr]@.map_values(
                        |tc: TableCell| tc@));
                    assert(prev_view.cells[rr].len() == prev_view.width);
                    assert(prev_cells[rr]@.len() == w as nat);
                    assert(t@.cells[rr] == t.cells@[rr]@.map_values(|tc: TableCell| tc@));
                    if rr == trow as int && cc == tcol as int {
                        assert(t@.cells[rr][cc].text == rows_view(rows@)[k as int].2);
                        assert(stored_text_at(prefix1, rr, cc) == prefix1.last().2);
                    } else {
                        if rr != trow as int {
                            assert(t.cells@[rr] == prev_cells[rr]);
                        } else {
                            assert(t.cells@[rr]@[cc] == prev_cells[rr]@[cc]);
                        }
                        assert(t@.cells[rr][cc] == prev_view.cells[rr][cc]);
                        assert(prev_view.cells[rr][cc].lock is None);
                        assert(prev_view.cells[rr][cc].text == stored_text_at(prefix, rr, cc));
                        assert(stored_text_at(prefix1, rr, cc) == stored_text_at(prefix, rr, cc));
                    }
                }
            }
        } else {
            proof {
                assert forall|rr: int, cc: int|
                    0 <= rr < height as int && 0 <= cc < width as int implies
                    stored_text_at(prefix1, rr, cc) == stored_text_at(prefix, rr, cc) by {
                    assert(!(prefix1.last().0 == rr && prefix1.last().1 == cc));
                }
            }
        }
        k = k + 1;
        proof {
            assert(rows_view(rows@).subrange(0, k as int) =~= prefix1);
        }
    }
    proof {
        assert(rows_view(rows@).subrange(0, rows@.len() as int) =~= rows_view(rows@));
    }
    t
}

/// One statement of the durable row-insertion sequence.
#[derive(Clone, Copy, Debug, PartialEq, Eq, Structural)]
pub enum StorageOp {
    /// Grow the stored table height by `delta`.
    UpdateHeight { delta: u64 },
    /// Renumber every stored cell with `row_num >= from_row` to
    /// `row_num + by`.
    ShiftRowNumbers { from_row: u64, by: u64 },
    /// Insert one empty stored cell at `(row, col)`.
    InsertCell { row: u64, col: u64 },
}

/// The empty-cell insertions of one new row, in column order.
pub open spec fn row_insert_ops_to(row: u64, c: int) -> Seq<StorageOp>
    decreases c,
{
    if c <= 0 {
        Seq::empty()
    } else {
        row_insert_ops_to(row, c - 1) + seq![StorageOp::InsertCell { row, col: (c - 1) as u64 }]
    }
}

/// The empty-cell insertions of the first `r` new rows, row-major,
/// starting at row number `at`.
pub open spec fn insert_cell_ops_to(at: u64, width: u64, r: int) -> Seq<StorageOp>
    decreases r,
{
    if r <= 0 {
        Seq::empty()
    } else {
        insert_cell_ops_to(at, width, r - 1)
            + row_insert_ops_to((at + r - 1) as u64, width as int)
    }
}

/// The statement sequence that makes a row insertion durable: grow the
/// height, shift the rows at and below the insertion point, then
/// insert the new empty cells row-major.
pub open spec fn insert_rows_plan(insertion_index: u64, num_rows: u64, width: u64)
    -> Seq<StorageOp>
{
    seq![
        StorageOp::UpdateHeight { delta: num_rows },
        StorageOp::ShiftRowNumbers { from_row: insertion_index, by: num_rows },
    ] + insert_cell_ops_to(insertion_index, width, num_rows as int)
}

/// Plan the storage statements for an applied `InsertRows`, to be run
/// against the durable store in order.
pub fn insert_rows_storage_plan(insertion_index: u64, num_rows: u64, width: u64)
    -> (plan: Vec<StorageOp>)
    requires
        insertion_index + num_rows <= u64::MAX,
    ensures
        plan@ == insert_rows_plan(insertion_index, num_rows, width),
{
    let mut plan: Vec<StorageOp> = Vec::new();
    plan.push(StorageOp::UpdateHeight { delta: num_rows });
    plan.push(StorageOp::ShiftRowNumbers { from_row: insertion_index, by: num_rows });
    let ghost head = plan@;
    proof {
        assert(plan@ =~= head + insert_cell_ops_to(insertion_index, width, 0));
    }
    let mut r: u64 = 0;
    while r < num_rows
        invariant
            r <= num_rows,
            insertion_index + num_rows <= u64::MAX,
            plan@ == head + insert_cell_ops_to(insertion_index, width, r as int),
        decreases num_rows - r,
    {
        let row = insertion_index + r;
        let mut c: u64 = 0;
        while c < width
            invariant
                c <= width,
                row == insertion_index + r,
                r < num_rows,
                insertion_index + num_rows <= u64::MAX,
                plan@ == head + insert_cell_ops_to(insertion_index, width, r as int)
                    + row_insert_ops_to(row, c as int),
            decreases width - c,
        {
            plan.push(StorageOp::InsertCell { row, col: c });
            c = c + 1;
            proof {
                assert(plan@ =~= head + insert_cell_ops_to(insertion_index, width, r as int)
                    + row_insert_ops_to(row, c as int));
            }
        }
        r = r + 1;
        proof {
            assert(plan@ =~= head + insert_cell_ops_to(insertion_index, width, r as int));
        }
    }
    proof {
        assert(plan@ =~= insert_rows_plan(insertion_index, num_rows, width));
    }
    plan
}

} // verus!
