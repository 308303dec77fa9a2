//! The cell: a text buffer plus an optional authorship lock, and the
//! edit state machine that mutates it.
//!
//! Cell text is a byte string; every index in the protocol is a byte
//! offset into the cell's text. An edit is admitted only when the cell
//! is unlocked or the requester already owns the lock; an admitted,
//! in-bounds edit applies its splice and sets (or refreshes) the lock
//! to the full grace window.

use vstd::prelude::*;

verus! {

/// Number of sweeper ticks a freshly acquired or refreshed lock lives.
pub const LOCK_DURATION_SECS: u32 = 3;

/// Who currently owns a cell's writer role and for how many more
/// sweeper ticks.
#[derive(Clone, Copy, Debug, PartialEq, Eq)]
pub struct CellLockData {
    pub owner_id: u64,
    pub duration_secs: u32,
}

/// One text field of the grid together with its lock state.
#[derive(Debug)]
pub struct TableCell {
    pub text: Vec<u8>,
    pub lock: Option<CellLockData>,
}

/// Model of a cell: its text as a byte sequence, and its lock.
pub struct CellState {
    pub text: Seq<u8>,
    pub lock: Option<CellLockData>,
}

impl View for TableCell {
    type V = CellState;

    open spec fn view(&self) -> CellState {
        CellState { text: self.text@, lock: self.lock }
    }
}

/// An edit operation on a single cell, with byte offsets into the
/// cell's text.
pub enum EditOp {
    Insert { index: u64, text: Vec<u8> },
    Delete { start: u64, end: u64 },
    Replace { start: u64, end: u64, text: Vec<u8> },
}

/// Model of an edit operation.
pub enum OpView {
    Insert { index: u64, text: Seq<u8> },
    Delete { start: u64, end: u64 },
    Replace { start: u64, end: u64, text: Seq<u8> },
}

impl View for EditOp {
    type V = OpView;

    open spec fn view(&self) -> OpView {
        match self {
            EditOp::Insert { index, text } => OpView::Insert { index: *index, text: text@ },
            EditOp::Delete { start, end } => OpView::Delete { start: *start, end: *end },
            EditOp::Replace { start, end, text } => OpView::Replace {
                start: *start, end: *end, text: text@,
            },
        }
    }
}

/// Text after inserting `ins` at byte offset `index`; an offset at or
/// past the end appends.
pub open spec fn insert_text(text: Seq<u8>, index: u64, ins: Seq<u8>) -> Seq<u8> {
    if index >= text.len() {
        text + ins
    } else {
        text.subrange(0, index as int) + ins + text.subrange(index as int, text.len() as int)
    }
}

/// Text after replacing the byte range `[start, end)` with `rep`.
/// Deletion is the special case of an empty `rep`.
pub open spec fn splice_text(text: Seq<u8>, start: u64, end: u64, rep: Seq<u8>) -> Seq<u8> {
    text.subrange(0, start as int) + rep + text.subrange(end as int, text.len() as int)
}

/// Whether an operation's byte range is valid for `text`. Inserts are
/// always valid (out-of-range offsets append); deletes and replaces
/// need `start <= end <= text.len()`.
pub open spec fn op_in_bounds(text: Seq<u8>, op: OpView) -> bool {
    match op {
        OpView::Insert { .. } => true,
        OpView::Delete { start, end } => start <= end && end <= text.len(),
        OpView::Replace { start, end, .. } => start <= end && end <= text.len(),
    }
}

/// The text an in-bounds operation produces.
pub open spec fn apply_op(text: Seq<u8>, op: OpView) -> Seq<u8> {
    match op {
        OpView::Insert { index, text: ins } => insert_text(text, index, ins),
        OpView::Delete { start, end } => splice_text(text, start, end, Seq::empty()),
        OpView::Replace { start, end, text: rep } => splice_text(text, start, end, rep),
    }
}

/// Admission rule: the cell is unlocked, or the requester already owns
/// the lock.
pub open spec fn admits(lock: Option<CellLockData>, client_id: u64) -> bool {
    match lock {
        Option::None => true,
        Option::Some(l) => l.owner_id == client_id,
    }
}

/// A lock freshly acquired (or refreshed) by `client_id`.
pub open spec fn fresh_lock(client_id: u64) -> CellLockData {
    CellLockData { owner_id: client_id, duration_secs: LOCK_DURATION_SECS }
}

/// Whether an edit by `client_id` is both admitted by the lock and in
/// bounds for the current text: exactly the edits that mutate the cell
/// and are broadcast.
pub open spec fn edit_applies(cell: CellState, client_id: u64, op: OpView) -> bool {
    admits(cell.lock, client_id) && op_in_bounds(cell.text, op)
}

/// The cell an applied edit leaves behind: the new text under a fresh
/// lock of the editor.
pub open spec fn edited_cell(cell: CellState, client_id: u64, op: OpView) -> CellState {
    CellState { text: apply_op(cell.text, op), lock: Option::Some(fresh_lock(client_id)) }
}

impl TableCell {
    /// A cell as loaded from storage or created by a row insertion:
    /// given text, no lock.
    pub fn new(text: Vec<u8>) -> (r: TableCell)
        ensures
            r@ == (CellState { text: text@, lock: Option::None }),
    {
        TableCell { text, lock: Option::None }
    }

    /// Attempt one edit by `client_id`. Returns whether the edit was
    /// admitted and applied; a dropped edit (lock held by another
    /// client, or range out of bounds) leaves the cell untouched.
    pub fn try_edit(&mut self, client_id: u64, op: &EditOp) -> (applied: bool)
        ensures
            applied == edit_applies(old(self)@, client_id, op@),
            applied ==> final(self)@ == edited_cell(old(self)@, client_id, op@),
            !applied ==> *final(self) == *old(self),
    {
        let admitted = match &self.lock {
            Option::None => true,
            Option::Some(l) => l.owner_id == client_id,
        };
        if !admitted {
            return false;
        }
        let ok = match op {
            EditOp::Insert { index, text } => {
                self.insert_bytes(*index, text);
                true
            },
            EditOp::Delete { start, end } => self.splice_bytes(*start, *end, &Vec::new()),
            EditOp::Replace { start, end, text } => self.splice_bytes(*start, *end, text),
        };
        if ok {
            self.lock = Option::Some(CellLockData {
                owner_id: client_id,
                duration_secs: LOCK_DURATION_SECS,
            });
        }
        ok
    }

    /// Insert `ins` at byte offset `index`, appending when the offset
    /// is at or past the end of the text.
    fn insert_bytes(&mut self, index: u64, ins: &Vec<u8>)
        ensures
            final(self).text@ == insert_text(old(self).text@, index, ins@),
            final(self).lock == old(self).lock,
    {
        let len = self.text.len();
        let at: usize = if index >= len as u64 {
            len
        } else {
            index as usize
        };
        let mut out: Vec<u8> = Vec::new();
        let mut i: usize = 0;
        proof {
            assert(out@ =~= self.text@.subrange(0, 0));
        }
        while i < at
            invariant
                i <= at,
                at <= self.text.len(),
                out@ == self.text@.subrange(0, i as int),
                *self == *old(self),
            decreases at - i,
        {
            out.push(self.text[i]);
            i = i + 1;
            proof {
                assert(out@ =~= self.text@.subrange(0, i as int));
            }
        }
        let mut j: usize = 0;
        proof {
            assert(out@ =~= self.text@.subrange(0, at as int) + ins@.subrange(0, 0));
        }
        while j < ins.len()
            invariant
                j <= ins@.len(),
                at <= self.text.len(),
                out@ == self.text@.subrange(0, at as int) + ins@.subrange(0, j as int),
                *self == *old(self),
            decreases ins@.len() - j,
        {
            out.push(ins[j]);
            j = j + 1;
            proof {
                assert(out@ =~= self.text@.subrange(0, at as int) + ins@.subrange(0, j as int));
            }
        }
        let mut k: usize = at;
        proof {
            assert(ins@.subrange(0, ins@.len() as int) =~= ins@);
            assert(out@ =~= self.text@.subrange(0, at as int) + ins@
                + self.text@.subrange(at as int, at as int));
        }
        while k < self.text.len()
            invariant
                at <= k <= self.text.len(),
                out@ == self.text@.subrange(0, at as int) + ins@
                    + self.text@.subrange(at as int, k as int),
                *self == *old(self),
            decreases self.text@.len() - k,
        {
            out.push(self.text[k]);
            k = k + 1;
            proof {
                assert(out@ =~= self.text@.subrange(0, at as int) + ins@
                    + self.text@.subrange(at as int, k as int));
            }
        }
        proof {
            if index >= old(self).text@.len() {
                assert(self.text@.subrange(0, at as int) =~= self.text@);
                assert(out@ =~= old(self).text@ + ins@);
            } else {
                assert(out@ =~= insert_text(old(self).text@, index, ins@));
            }
        }
        self.text = out;
    }

    /// Replace the byte range `[start, end)` with `rep`, when the range
    /// is valid; returns whether it was. An invalid range changes
    /// nothing.
    fn splice_bytes(&mut self, start: u64, end: u64, rep: &Vec<u8>) -> (ok: bool)
        ensures
            ok == (start <= end && end <= old(self).text@.len()),
            ok ==> final(self).text@ == splice_text(old(self).text@, start, end, rep@),
            !ok ==> *final(self) == *old(self),
            final(self).lock == old(self).lock,
    {
        let len = self.text.len();
        if !(start <= end && end <= len as u64) {
            return false;
        }
        let s: usize = start as usize;
        let e: usize = end as usize;
        let mut out: Vec<u8> = Vec::new();
        let mut i: usize = 0;
        proof {
            assert(out@ =~= self.text@.subrange(0, 0));
        }
        while i < s
            invariant
                i <= s,
                s <= self.text.len(),
                out@ == self.text@.subrange(0, i as int),
                *self == *old(self),
            decreases s - i,
        {
            out.push(self.text[i]);
            i = i + 1;
            proof {
                assert(out@ =~= self.text@.subrange(0, i as int));
            }
        }
        let mut j: usize = 0;
        proof {
            assert(out@ =~= self.text@.subrange(0, s as int) + rep@.subrange(0, 0));
        }
        while j < rep.len()
            invariant
                j <= rep@.len(),
                s <= self.text.len(),
                out@ == self.text@.subrange(0, s as int) + rep@.subrange(0, j as int),
                *self == *old(self),
            decreases rep@.len() - j,
        {
            out.push(rep[j]);
            j = j + 1;
            proof {
                assert(out@ =~= self.text@.subrange(0, s as int) + rep@.subrange(0, j as int));
            }
        }
        let mut k: usize = e;
        proof {
            assert(rep@.subrange(0, rep@.len() as int) =~= rep@);
            assert(out@ =~= self.text@.subrange(0, s as int) + rep@
                + self.text@.subrange(e as int, e as int));
        }
        while k < self.text.len()
            invariant
                e <= k <= self.text.len(),
                s <= e,
                out@ == self.text@.subrange(0, s as int) + rep@
                    + self.text@.subrange(e as int, k as int),
                *self == *old(self),
            decreases self.text@.len() - k,
        {
            out.push(self.text[k]);
            k = k + 1;
            proof {
                assert(out@ =~= self.text@.subrange(0, s as int) + rep@
                    + self.text@.subrange(e as int, k as int));
            }
        }
        proof {
            assert(out@ =~= splice_text(old(self).text@, start, end, rep@));
        }
        self.text = out;
        true
    }
}

/// Insert at or past the end appends: for any text, an insert whose
/// byte offset is at least the text's length yields exactly
/// `text + ins`, whether the offset equals the length or exceeds it.
pub proof fn lemma_insert_at_or_past_end_appends(text: Seq<u8>, index: u64, ins: Seq<u8>)
    requires
        index >= text.len(),
    ensures
        insert_text(text, index, ins) == text + ins,
{
}

/// An empty-range delete, or an empty-range replace with empty text,
/// leaves the text unchanged — yet it is still an admitted edit, so it
/// refreshes the lock and is broadcast like any other.
pub proof fn lemma_empty_range_edit_is_noop(cell: CellState, client_id: u64, op: OpView)
    requires
        admits(cell.lock, client_id),
        match op {
            OpView::Insert { .. } => false,
            OpView::Delete { start, end } => start == end && end <= cell.text.len(),
            OpView::Replace { start, end, text } =>
                start == end && end <= cell.text.len() && text.len() == 0,
        },
    ensures
        edit_applies(cell, client_id, op),
        edited_cell(cell, client_id, op).text == cell.text,
        edited_cell(cell, client_id, op).lock == Option::Some(fresh_lock(client_id)),
{
    match op {
        OpView::Insert { .. } => {},
        OpView::Delete { start, end } => {
            assert(splice_text(cell.text, start, end, Seq::empty()) =~= cell.text);
        },
        OpView::Replace { start, end, text } => {
            assert(splice_text(cell.text, start, end, text) =~= cell.text);
        },
    }
}

/// A non-owner's edit is silently dropped: while another client holds
/// the lock, an edit by anyone else is not admitted, so it neither
/// mutates the cell nor refreshes the lock nor broadcasts.
pub proof fn lemma_non_owner_edit_dropped(cell: CellState, client_id: u64, op: OpView)
    requires
        cell.lock is Some,
        cell.lock->Some_0.owner_id != client_id,
    ensures
        !edit_applies(cell, client_id, op),
{
}

/// A copy of a byte string.
pub fn copy_bytes(v: &Vec<u8>) -> (r: Vec<u8>)
    ensures
        r@ == v@,
{
    let mut r: Vec<u8> = Vec::new();
    let mut i: usize = 0;
    proof {
        assert(r@ =~= v@.subrange(0, 0));
    }
    while i < v.len()
        invariant
            i <= v@.len(),
            r@ == v@.subrange(0, i as int),
        decreases v@.len() - i,
    {
        r.push(v[i]);
        i = i + 1;
        proof {
            assert(r@ =~= v@.subrange(0, i as int));
        }
    }
    proof {
        assert(r@ =~= v@);
    }
    r
}

} // verus!
