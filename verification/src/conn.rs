//! The connection handler's decisions, as session operations.
//!
//! A connection attaches to its table's session, receives the `Init`
//! snapshot, then runs two tasks: the inbound one feeds each text
//! frame through `client_frame`, the outbound one drains the hub
//! subscription. The transport — the socket itself — lives outside
//! the library and only moves byte frames in and out.

use vstd::prelude::*;
use crate::codec::decode_msg;
use crate::codec::spec_decode_msg;
use crate::hub::HubSubscriber;
use crate::msg::ClientMessage;
use crate::msg::MsgView;
use crate::msg::views_of;
use crate::registry::ClientIdAllocator;
use crate::registry::Session;
use crate::sweeper::grid_release_events;
use crate::sweeper::grid_writebacks;
use crate::sweeper::swept_cells;
use crate::sweeper::writebacks_view;
use crate::table::snapshot_view;
use crate::table::table_step;

verus! {

impl Session {
    /// Attach one connection: allocate its client id, subscribe it to
    /// the hub (it will see exactly the events published from now on),
    /// bump the subscriber count, and build its `Init` frame from the
    /// current snapshot.
    pub fn attach(&mut self, ids: &mut ClientIdAllocator)
        -> (out: (u64, HubSubscriber, ClientMessage))
        requires
            old(self).wf(),
            old(ids).next_id < u64::MAX,
            old(self).subscriber_count < u64::MAX,
        ensures
            final(self).wf(),
            out.0 == old(ids).next_id,
            final(ids).next_id == old(ids).next_id + 1,
            final(self).subscriber_count == old(self).subscriber_count + 1,
            final(self).table == old(self).table,
            final(self).hub == old(self).hub,
            final(self).sweeper_alive == old(self).sweeper_alive,
            out.1.next == old(self).hub.log@.len(),
            out.2@ == (MsgView::Init {
                client_id: out.0,
                table: snapshot_view(old(self).table@),
            }),
    {
        let client_id = ids.allocate();
        self.subscriber_count = self.subscriber_count + 1;
        let sub = self.hub.subscribe();
        let init = self.table.make_init(client_id);
        (client_id, sub, init)
    }

    /// Detach one connection: only the subscriber count moves. Locks
    /// the client still holds stay; the sweeper reclaims them.
    pub fn detach(&mut self)
        requires
            old(self).subscriber_count > 0,
        ensures
            final(self).subscriber_count == old(self).subscriber_count - 1,
            final(self).table == old(self).table,
            final(self).hub == old(self).hub,
            final(self).sweeper_alive == old(self).sweeper_alive,
    {
        self.subscriber_count = self.subscriber_count - 1;
    }

    /// Feed one inbound text frame through the edit state machine: a
    /// decodable frame takes the table through `table_step` with the
    /// connection's server-assigned id and publishes exactly that
    /// step's events to the hub, in order; an undecodable frame is
    /// silently dropped.
    pub fn client_frame(&mut self, client_id: u64, frame: &[u8])
        requires
            old(self).wf(),
        ensures
            final(self).wf(),
            final(self).subscriber_count == old(self).subscriber_count,
            final(self).sweeper_alive == old(self).sweeper_alive,
            final(self).hub.capacity == old(self).hub.capacity,
            match spec_decode_msg(frame@) {
                Option::Some(m) => {
                    &&& final(self).table@ == table_step(old(self).table@, client_id, m).0
                    &&& views_of(final(self).hub.log@) == views_of(old(self).hub.log@)
                        + table_step(old(self).table@, client_id, m).1
                },
                Option::None => {
                    &&& final(self).table == old(self).table
                    &&& final(self).hub.log@ == old(self).hub.log@
                },
            },
    {
        match decode_msg(frame) {
            Option::Some(msg) => {
                let events = self.table.handle_message(client_id, msg);
                self.hub.publish_all(events);
            },
            Option::None => {},
        }
    }

    /// One sweeper pass: tick every cell, publish the `ReleaseLock`
    /// events in row-major order, and hand back the released cells'
    /// texts for the caller to persist.
    pub fn sweep_once(&mut self) -> (wb: Vec<(u64, u64, Vec<u8>)>)
        requires
            old(self).wf(),
        ensures
            final(self).wf(),
            final(self).table@.width == old(self).table@.width,
            final(self).table@.cells == swept_cells(old(self).table@.cells),
            final(self).subscriber_count == old(self).subscriber_count,
            final(self).sweeper_alive == old(self).sweeper_alive,
            final(self).hub.capacity == old(self).hub.capacity,
            writebacks_view(wb@) == grid_writebacks(old(self).table@.cells),
            views_of(final(self).hub.log@) == views_of(old(self).hub.log@)
                + grid_release_events(old(self).table@.cells),
    {
        let (writebacks, events) = self.table.sweep();
        self.hub.publish_all(events);
        writebacks
    }
}

} // verus!
