//! The session registry and the client id allocator.
//!
//! The registry is the process-wide mapping from table id to its live
//! session. A table is materialized from storage at most once: an open
//! first looks the id up, and only when it is absent does the caller
//! load the table and insert the built session. Sessions are retained
//! for the life of the process.

use vstd::prelude::*;
use crate::hub::Hub;
use crate::table::Table;

verus! {

/// The error of an open that found no such table: the storage lookup
/// failed or returned no row.
#[derive(Clone, Copy)]
pub struct NoTableError {
    pub table_id: i64,
}

impl NoTableError {
    pub fn new(table_id: i64) -> (e: NoTableError)
        ensures
            e.table_id == table_id,
    {
        NoTableError { table_id }
    }
}

/// The process-wide counter handing each new connection a unique
/// client id, monotonically from zero.
pub struct ClientIdAllocator {
    pub next_id: u64,
}

impl ClientIdAllocator {
    pub fn new() -> (a: ClientIdAllocator)
        ensures
            a.next_id == 0,
    {
        ClientIdAllocator { next_id: 0 }
    }

    /// Fetch-and-increment: ids are issued in order and never reused.
    pub fn allocate(&mut self) -> (id: u64)
        requires
            old(self).next_id < u64::MAX,
        ensures
            id == old(self).next_id,
            final(self).next_id == old(self).next_id + 1,
    {
        let id = self.next_id;
        self.next_id = self.next_id + 1;
        id
    }
}

/// One table currently being served: its grid, its broadcast hub, how
/// many connections are attached, and whether its sweeper task runs.
pub struct Session {
    pub table: Table,
    pub hub: Hub,
    pub subscriber_count: u64,
    pub sweeper_alive: bool,
}

impl Session {
    pub open spec fn wf(self) -> bool {
        self.table@.wf() && self.hub.wf()
    }

    /// The session built at first open, around a table freshly loaded
    /// from storage: a new hub, no subscribers yet, and its sweeper
    /// started.
    pub fn new(table: Table) -> (s: Session)
        requires
            table@.wf(),
        ensures
            s.wf(),
            s.table == table,
            s.hub.log@.len() == 0,
            s.subscriber_count == 0,
            s.sweeper_alive,
    {
        Session { table, hub: Hub::new(), subscriber_count: 0, sweeper_alive: true }
    }
}

/// Whether some entry carries `table_id`.
pub open spec fn entries_contain(entries: Seq<(i64, Session)>, table_id: i64) -> bool {
    exists|i: int| 0 <= i < entries.len() && (#[trigger] entries[i]).0 == table_id
}

/// The mapping from table id to session.
pub struct SessionRegistry {
    pub entries: Vec<(i64, Session)>,
}

impl SessionRegistry {
    /// Keys are unique, and every present session is well-formed with
    /// its sweeper running.
    pub open spec fn wf(self) -> bool {
        &&& forall|i: int, j: int| 0 <= i < j < self.entries@.len() ==>
            (#[trigger] self.entries@[i]).0 != (#[trigger] self.entries@[j]).0
        &&& forall|i: int| 0 <= i < self.entries@.len() ==> {
            &&& (#[trigger] self.entries@[i]).1.wf()
            &&& self.entries@[i].1.sweeper_alive
        }
    }

    pub open spec fn contains_table(self, table_id: i64) -> bool {
        entries_contain(self.entries@, table_id)
    }

    pub fn new() -> (r: SessionRegistry)
        ensures
            r.wf(),
            r.entries@.len() == 0,
    {
        SessionRegistry { entries: Vec::new() }
    }

    /// Look a table id up: the index of its session, or `None` when
    /// the table is not loaded — the case in which, and only in which,
    /// an open goes to storage.
    pub fn find(&self, table_id: i64) -> (r: Option<usize>)
        ensures
            match r {
                Option::Some(i) => (i as int) < self.entries@.len()
                    && self.entries@[i as int].0 == table_id,
                Option::None => !self.contains_table(table_id),
            },
            r is Some <==> self.contains_table(table_id),
    {
        let mut i: usize = 0;
        while i < self.entries.len()
            invariant
                i <= self.entries@.len(),
                forall|j: int| 0 <= j < i as int ==> (#[trigger] self.entries@[j]).0 != table_id,
            decreases self.entries@.len() - i,
        {
            if self.entries[i].0 == table_id {
                return Option::Some(i);
            }
            i = i + 1;
        }
        Option::None
    }

    /// Insert the session built from a fresh load. The id must have
    /// been absent: the double-checked lookup under the registry lock
    /// guarantees a second concurrent open reuses this entry instead.
    pub fn insert_session(&mut self, table_id: i64, session: Session)
        requires
            old(self).wf(),
            !old(self).contains_table(table_id),
            session.wf(),
            session.sweeper_alive,
        ensures
            final(self).wf(),
            final(self).entries@ == old(self).entries@.push((table_id, session)),
            final(self).contains_table(table_id),
            forall|id: i64| final(self).contains_table(id) <==>
                (old(self).contains_table(id) || id == table_id),
    {
        self.entries.push((table_id, session));
        proof {
            assert(self.entries@[self.entries@.len() - 1].0 == table_id);
            assert forall|id: i64| self.contains_table(id) implies
                (old(self).contains_table(id) || id == table_id) by {
                let i = choose|i: int| 0 <= i < self.entries@.len()
                    && (#[trigger] self.entries@[i]).0 == id;
                if i < old(self).entries@.len() {
                    assert(old(self).entries@[i].0 == id);
                }
            }
            assert forall|id: i64| old(self).contains_table(id) implies
                self.contains_table(id) by {
                let i = choose|i: int| 0 <= i < old(self).entries@.len()
                    && (#[trigger] old(self).entries@[i]).0 == id;
                assert(self.entries@[i].0 == id);
            }
        }
    }

    /// Mutable access to the session at a found index.
    pub fn session_mut(&mut self, i: usize) -> (s: &mut Session)
        requires
            (i as int) < old(self).entries@.len(),
        ensures
            *s == old(self).entries@[i as int].1,
            final(self).entries@ == old(self).entries@.update(
                i as int,
                (old(self).entries@[i as int].0, *final(s)),
            ),
    {
        let entry = &mut self.entries[i];
        &mut entry.1
    }
}

/// Registry single-flight: materializing an absent table id makes it
/// present, and touches no other id's presence. Hence of two opens of
/// the same previously-unloaded id, whichever runs second under the
/// registry lock finds the session present and performs no storage
/// load.
pub proof fn lemma_open_single_flight(entries: Seq<(i64, Session)>, table_id: i64, s: Session)
    requires
        !entries_contain(entries, table_id),
    ensures
        entries_contain(entries.push((table_id, s)), table_id),
        forall|id: i64| id != table_id ==>
            (entries_contain(entries.push((table_id, s)), id) == entries_contain(entries, id)),
{
    let pushed = entries.push((table_id, s));
    assert(pushed[entries.len() as int].0 == table_id);
    assert forall|id: i64| id != table_id implies
        (entries_contain(pushed, id) == entries_contain(entries, id)) by {
        if entries_contain(pushed, id) {
            let i = choose|i: int| 0 <= i < pushed.len() && (#[trigger] pushed[i]).0 == id;
            assert(i < entries.len());
            assert(entries[i].0 == id);
        }
        if entries_contain(entries, id) {
            let i = choose|i: int| 0 <= i < entries.len() && (#[trigger] entries[i]).0 == id;
            assert(pushed[i].0 == id);
        }
    }
}

} // verus!
