//! One step of a subscriber session: the decision a session makes each time
//! round its loop. The surrounding connection handling only performs the
//! returned action; everything it sends is framed and decided here.
use vstd::prelude::*;

use crate::codec::encode_snapshot;
use crate::codec::snap_json;
use crate::fanout::Broadcaster;
use crate::fanout::wf_fanout;

verus! {

/// What a subscriber session does next.
pub enum SessionAction {
    /// Send exactly these bytes to the peer.
    Deliver(Vec<u8>),
    /// Nothing is pending; wait for the next publish.
    Wait,
}

/// Takes the pending snapshot for subscriber `id`, if any, and frames it for
/// the peer. Delivered bytes are exactly the wire form of a snapshot that
/// was published at or after the subscriber attached; when nothing was
/// pending the session just waits. The subscriber's slot is left empty
/// either way.
pub fn session_step(bus: &mut Broadcaster, id: u64) -> (action: SessionAction)
    requires
        wf_fanout(old(bus)@),
    ensures
        wf_fanout(final(bus)@),
        final(bus)@.published == old(bus)@.published,
        final(bus)@.next_id == old(bus)@.next_id,
        final(bus)@.slots.len() == old(bus)@.slots.len(),
        forall|k: int|
            0 <= k < old(bus)@.slots.len() && old(bus)@.slots[k].id != id
                ==> final(bus)@.slots[k] == old(bus)@.slots[k],
        forall|k: int|
            0 <= k < old(bus)@.slots.len() && old(bus)@.slots[k].id == id
                ==> final(bus)@.slots[k].pending is None,
        match action {
            SessionAction::Deliver(bytes) => exists|k: int|
                0 <= k < old(bus)@.slots.len() && #[trigger] old(bus)@.slots[k].id == id && (
                old(bus)@.slots[k].pending matches Some(p) && bytes@ == snap_json(p.1)
                    && old(bus)@.slots[k].attached_at <= p.0 < old(bus)@.published),
            SessionAction::Wait => forall|k: int|
                0 <= k < old(bus)@.slots.len() && #[trigger] old(bus)@.slots[k].id == id
                    ==> old(bus)@.slots[k].pending is None,
        },
{
    let ghost pre = old(bus)@;
    match bus.recv(id) {
        Some(snap) => {
            let bytes = encode_snapshot(&snap);
            proof {
                let k = choose|k: int|
                    0 <= k < pre.slots.len() && #[trigger] pre.slots[k].id == id
                        && pre.slots[k].pending == Some(
                        (pre.slots[k].pending->Some_0.0, snap@),
                    ) && pre.slots[k].attached_at <= pre.slots[k].pending->Some_0.0
                        < pre.published;
                assert(pre.slots[k].pending matches Some(p) && bytes@ == snap_json(p.1)
                    && pre.slots[k].attached_at <= p.0 < pre.published);
            }
            SessionAction::Deliver(bytes)
        },
        None => SessionAction::Wait,
    }
}

} // verus!
