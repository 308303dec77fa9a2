//! The lock sweeper's logic: one pass over the grid, run once per
//! second by the session's sweeper task.
//!
//! For each cell holding a lock, a tick either decrements the lock's
//! remaining seconds or — when fewer than two remain — releases it.
//! A released cell's current text must be written back to storage and
//! a `ReleaseLock` event broadcast; `sweep` returns the writebacks and
//! the events in row-major order, for the caller to perform and
//! publish.

use vstd::prelude::*;
use crate::cell::CellLockData;
use crate::cell::CellState;
use crate::cell::TableCell;
use crate::cell::copy_bytes;
use crate::msg::ClientMessage;
use crate::msg::MsgView;
use crate::msg::views_of;
use crate::table::Table;

verus! {

/// Whether a tick releases the cell's lock: a lock is held and fewer
/// than two seconds remain.
pub open spec fn tick_releases(cell: CellState) -> bool {
    match cell.lock {
        Option::None => false,
        Option::Some(l) => l.duration_secs < 2,
    }
}

/// The cell after one sweeper tick: untouched when unlocked, the lock
/// cleared when it expires, its remaining seconds decremented
/// otherwise. The text never changes.
pub open spec fn ticked_cell(cell: CellState) -> CellState {
    match cell.lock {
        Option::None => cell,
        Option::Some(l) => if l.duration_secs < 2 {
            CellState { text: cell.text, lock: Option::None }
        } else {
            CellState {
                text: cell.text,
                lock: Option::Some(CellLockData {
                    owner_id: l.owner_id,
                    duration_secs: (l.duration_secs - 1) as u32,
                }),
            }
        },
    }
}

/// Every cell of the grid after one sweeper pass.
pub open spec fn swept_cells(cells: Seq<Seq<CellState>>) -> Seq<Seq<CellState>> {
    cells.map_values(|row: Seq<CellState>| row.map_values(|c: CellState| ticked_cell(c)))
}

/// The `ReleaseLock` events of one cell's tick: one event when the
/// tick releases, none otherwise.
pub open spec fn cell_release_at(cell: CellState, r: u64, c: u64) -> Seq<MsgView> {
    if tick_releases(cell) {
        seq![MsgView::ReleaseLock { cell: (r, c) }]
    } else {
        Seq::empty()
    }
}

/// The writebacks of one cell's tick: the released cell's current
/// text, destined for storage.
pub open spec fn cell_writeback_at(cell: CellState, r: u64, c: u64) -> Seq<(u64, u64, Seq<u8>)> {
    if tick_releases(cell) {
        seq![(r, c, cell.text)]
    } else {
        Seq::empty()
    }
}

/// Release events of row `r`'s first `c` cells, in column order.
pub open spec fn row_release_events_to(row: Seq<CellState>, r: u64, c: int) -> Seq<MsgView>
    decreases c,
{
    if c <= 0 || c > row.len() {
        Seq::empty()
    } else {
        row_release_events_to(row, r, c - 1) + cell_release_at(row[c - 1], r, (c - 1) as u64)
    }
}

/// Writebacks of row `r`'s first `c` cells, in column order.
pub open spec fn row_writebacks_to(row: Seq<CellState>, r: u64, c: int) -> Seq<(u64, u64, Seq<u8>)>
    decreases c,
{
    if c <= 0 || c > row.len() {
        Seq::empty()
    } else {
        row_writebacks_to(row, r, c - 1) + cell_writeback_at(row[c - 1], r, (c - 1) as u64)
    }
}

/// Release events of the grid's first `r` rows, row-major.
pub open spec fn grid_release_events_to(cells: Seq<Seq<CellState>>, r: int) -> Seq<MsgView>
    decreases r,
{
    if r <= 0 || r > cells.len() {
        Seq::empty()
    } else {
        grid_release_events_to(cells, r - 1)
            + row_release_events_to(cells[r - 1], (r - 1) as u64, cells[r - 1].len() as int)
    }
}

/// Writebacks of the grid's first `r` rows, row-major.
pub open spec fn grid_writebacks_to(cells: Seq<Seq<CellState>>, r: int) -> Seq<(u64, u64, Seq<u8>)>
    decreases r,
{
    if r <= 0 || r > cells.len() {
        Seq::empty()
    } else {
        grid_writebacks_to(cells, r - 1)
            + row_writebacks_to(cells[r - 1], (r - 1) as u64, cells[r - 1].len() as int)
    }
}

/// All `ReleaseLock` events of one sweeper pass, row-major.
pub open spec fn grid_release_events(cells: Seq<Seq<CellState>>) -> Seq<MsgView> {
    grid_release_events_to(cells, cells.len() as int)
}

/// All storage writebacks of one sweeper pass, row-major.
pub open spec fn grid_writebacks(cells: Seq<Seq<CellState>>) -> Seq<(u64, u64, Seq<u8>)> {
    grid_writebacks_to(cells, cells.len() as int)
}

/// The view of a concrete writeback list.
pub open spec fn writebacks_view(wb: Seq<(u64, u64, Vec<u8>)>) -> Seq<(u64, u64, Seq<u8>)> {
    wb.map_values(|t: (u64, u64, Vec<u8>)| (t.0, t.1, t.2@))
}

impl TableCell {
    /// One sweeper tick on this cell.
    pub fn tick(&mut self) -> (released: bool)
        ensures
            released == tick_releases(old(self)@),
            final(self)@ == ticked_cell(old(self)@),
    {
        match &self.lock {
            Option::None => false,
            Option::Some(l) => {
                if l.duration_secs < 2 {
                    self.lock = Option::None;
                    true
                } else {
                    let d = l.duration_secs;
                    let owner = l.owner_id;
                    self.lock = Option::Some(CellLockData {
                        owner_id: owner,
                        duration_secs: d - 1,
                    });
                    false
                }
            },
        }
    }
}

impl Table {
    /// One sweeper pass over the grid, row-major. Ticks every cell,
    /// and returns the released cells' writebacks and the
    /// `ReleaseLock` events to broadcast, in order.
    pub fn sweep(&mut self) -> (out: (Vec<(u64, u64, Vec<u8>)>, Vec<ClientMessage>))
        requires
            old(self)@.wf(),
        ensures
            final(self)@.wf(),
            final(self)@.width == old(self)@.width,
            final(self)@.cells == swept_cells(old(self)@.cells),
            writebacks_view(out.0@) == grid_writebacks(old(self)@.cells),
            views_of(out.1@) == grid_release_events(old(self)@.cells),
    {
        let mut writebacks: Vec<(u64, u64, Vec<u8>)> = Vec::new();
        let mut events: Vec<ClientMessage> = Vec::new();
        let mut r: usize = 0;
        while r < self.cells.len()
            invariant
                old(self)@.wf(),
                r <= self.cells@.len(),
                self.width == old(self).width,
                self.cells@.len() == old(self).cells@.len(),
                forall|i: int| 0 <= i < r as int ==>
                    (#[trigger] self.cells@[i])@.map_values(|cc: TableCell| cc@) =~=
                        old(self)@.cells[i].map_values(|c: CellState| ticked_cell(c)),
                forall|i: int| r as int <= i < self.cells@.len() ==>
                    #[trigger] self.cells@[i] == old(self).cells@[i],
                writebacks_view(writebacks@) == grid_writebacks_to(old(self)@.cells, r as int),
                views_of(events@) == grid_release_events_to(old(self)@.cells, r as int),
            decreases self.cells@.len() - r,
        {
            proof {
                assert(old(self)@.cells[r as int] == old(self).cells@[r as int]@.map_values(
                    |cc: TableCell| cc@));
            }
            let width = self.cells[r].len();
            let mut c: usize = 0;
            while c < width
                invariant
                    old(self)@.wf(),
                    r < self.cells@.len(),
                    c <= width,
                    self.width == old(self).width,
                    self.cells@.len() == old(self).cells@.len(),
                    width == old(self).cells@[r as int]@.len(),
                    forall|i: int| 0 <= i < r as int ==>
                        (#[trigger] self.cells@[i])@.map_values(|cc: TableCell| cc@) =~=
                            old(self)@.cells[i].map_values(|cst: CellState| ticked_cell(cst)),
                    forall|i: int| (r as int) < i < self.cells@.len() ==>
                        #[trigger] self.cells@[i] == old(self).cells@[i],
                    self.cells@[r as int]@.len() == width,
                    forall|j: int| 0 <= j < c as int ==>
                        (#[trigger] self.cells@[r as int]@[j])@ ==
                            ticked_cell(old(self).cells@[r as int]@[j]@),
                    forall|j: int| c as int <= j < width ==>
                        #[trigger] self.cells@[r as int]@[j] == old(self).cells@[r as int]@[j],
                    writebacks_view(writebacks@) == grid_writebacks_to(old(self)@.cells, r as int)
                        + row_writebacks_to(old(self)@.cells[r as int], r as u64, c as int),
                    views_of(events@) == grid_release_events_to(old(self)@.cells, r as int)
                        + row_release_events_to(old(self)@.cells[r as int], r as u64, c as int),
                decreases width - c,
            {
                let ghost oldcell = self.cells@[r as int]@[c as int]@;
                let row_ref = &mut self.cells[r];
                let cell_ref = &mut row_ref[c];
                let released = cell_ref.tick();
                proof {
                    assert(oldcell == old(self).cells@[r as int]@[c as int]@);
                    assert(old(self)@.cells[r as int][c as int] == oldcell);
                    assert(released == tick_releases(oldcell));
                }
                let ghost prev_wb = writebacks@;
                let ghost prev_ev = events@;
                if released {
                    let text = copy_bytes(&cell_ref.text);
                    proof {
                        assert(text@ == oldcell.text);
                    }
                    writebacks.push((r as u64, c as u64, text));
                    events.push(ClientMessage::ReleaseLock { cell: (r as u64, c as u64) });
                    proof {
                        assert(writebacks_view(writebacks@) =~= writebacks_view(prev_wb)
                            + cell_writeback_at(oldcell, r as u64, c as u64));
                        assert(views_of(events@) =~= views_of(prev_ev)
                            + cell_release_at(oldcell, r as u64, c as u64));
                    }
                } else {
                    proof {
                        assert(writebacks_view(writebacks@) =~= writebacks_view(prev_wb)
                            + cell_writeback_at(oldcell, r as u64, c as u64));
                        assert(views_of(events@) =~= views_of(prev_ev)
                            + cell_release_at(oldcell, r as u64, c as u64));
                    }
                }
                proof {
                    assert(self.cells@[r as int]@[c as int]@ == ticked_cell(oldcell));
                    assert(row_writebacks_to(old(self)@.cells[r as int], r as u64, c as int + 1)
                        == row_writebacks_to(old(self)@.cells[r as int], r as u64, c as int)
                            + cell_writeback_at(oldcell, r as u64, c as u64));
                    assert(row_release_events_to(old(self)@.cells[r as int], r as u64, c as int + 1)
                        == row_release_events_to(old(self)@.cells[r as int], r as u64, c as int)
                            + cell_release_at(oldcell, r as u64, c as u64));
                    assert(writebacks_view(writebacks@) =~= grid_writebacks_to(old(self)@.cells,
                        r as int) + row_writebacks_to(old(self)@.cells[r as int], r as u64,
                        c as int + 1));
                    assert(views_of(events@) =~= grid_release_events_to(old(self)@.cells,
                        r as int) + row_release_events_to(old(self)@.cells[r as int], r as u64,
                        c as int + 1));
                }
                c = c + 1;
            }
            proof {
                assert(self.cells@[r as int]@.map_values(|cc: TableCell| cc@) =~=
                    old(self)@.cells[r as int].map_values(|cst: CellState| ticked_cell(cst)));
            }
            r = r + 1;
        }
        proof {
            assert forall|i: int| 0 <= i < self@.cells.len() implies
                #[trigger] self@.cells[i] =~= swept_cells(old(self)@.cells)[i] by {
                assert(self@.cells[i] == self.cells@[i]@.map_values(|cc: TableCell| cc@));
            }
            assert(self@.cells =~~= swept_cells(old(self)@.cells));
        }
        (writebacks, events)
    }
}

} // verus!
