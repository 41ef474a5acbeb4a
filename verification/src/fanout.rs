//! The latest-value broadcaster: one publisher, many subscribers, one pending
//! slot per subscriber. A publish overwrites whatever a slow subscriber had
//! not yet taken, so a consumer sees snapshots in publish order, possibly
//! with gaps, and always catches up to the newest one.
use vstd::prelude::*;

use crate::snapshot::SnapView;
use crate::snapshot::Snapshot;

verus! {

/// Ghost content of one subscriber slot.
#[verifier::ext_equal]
pub ghost struct SlotView {
    /// The subscriber's handle.
    pub id: u64,
    /// How many publishes had happened when the subscriber attached.
    pub attached_at: u64,
    /// The undelivered snapshot, if any, stamped with its publish index.
    pub pending: Option<(u64, SnapView)>,
}

struct Slot {
    id: u64,
    attached_at: u64,
    pending: Option<(u64, Snapshot)>,
}

spec fn slot_view(s: Slot) -> SlotView {
    SlotView {
        id: s.id,
        attached_at: s.attached_at,
        pending: match s.pending {
            Some(p) => Some((p.0, p.1@)),
            None => None,
        },
    }
}

/// Ghost content of the broadcaster.
#[verifier::ext_equal]
pub ghost struct FanoutView {
    /// How many snapshots have been published so far.
    pub published: u64,
    /// The next subscriber handle to hand out.
    pub next_id: u64,
    /// One slot per attached subscriber.
    pub slots: Seq<SlotView>,
}

/// What always holds of one slot: its handle is below the next one to be
/// handed out, it attached no later than now, and anything pending was
/// published at or after its attachment and before now.
pub open spec fn slot_ok(published: u64, next_id: u64, s: SlotView) -> bool {
    &&& s.id < next_id
    &&& s.attached_at <= published
    &&& match s.pending {
        Some(p) => s.attached_at <= p.0 < published,
        None => true,
    }
}

/// Well-formedness of the broadcaster: subscriber handles are unique and
/// every slot is in order.
pub open spec fn wf_fanout(v: FanoutView) -> bool {
    &&& forall|i: int, j: int|
        0 <= i < j < v.slots.len() ==> #[trigger] v.slots[i].id != #[trigger] v.slots[j].id
    &&& forall|i: int| 0 <= i < v.slots.len() ==> slot_ok(v.published, v.next_id, #[trigger] v.slots[i])
}

/// What one publish does: the count goes up by one and every subscriber's
/// slot is overwritten with the new content, whatever it held before.
pub open spec fn publish_rel(pre: FanoutView, post: FanoutView, content: SnapView) -> bool {
    &&& post.published == pre.published + 1
    &&& post.next_id == pre.next_id
    &&& post.slots.len() == pre.slots.len()
    &&& forall|j: int|
        0 <= j < pre.slots.len() ==> #[trigger] post.slots[j] == (SlotView {
            id: pre.slots[j].id,
            attached_at: pre.slots[j].attached_at,
            pending: Some((pre.published, content)),
        })
}

/// The single-producer, multi-consumer latest-value channel.
pub struct Broadcaster {
    published: u64,
    next_id: u64,
    slots: Vec<Slot>,
}

impl View for Broadcaster {
    type V = FanoutView;

    closed spec fn view(&self) -> FanoutView {
        FanoutView {
            published: self.published,
            next_id: self.next_id,
            slots: Seq::new(self.slots@.len(), |i: int| slot_view(self.slots@[i])),
        }
    }
}

impl Broadcaster {
    /// A fresh broadcaster: nothing published, nobody attached.
    pub fn new() -> (b: Broadcaster)
        ensures
            wf_fanout(b@),
            b@.published == 0,
            b@.next_id == 0,
            b@.slots.len() == 0,
    {
        Broadcaster { published: 0, next_id: 0, slots: Vec::new() }
    }

    /// How many snapshots have been published so far.
    pub fn published_count(&self) -> (n: u64)
        ensures
            n == self@.published,
    {
        self.published
    }

    /// The handle the next subscriber would get.
    pub fn next_handle(&self) -> (n: u64)
        ensures
            n == self@.next_id,
    {
        self.next_id
    }

    /// Attaches a new subscriber. It starts with an empty slot, so it can
    /// only ever receive snapshots published from now on.
    pub fn subscribe(&mut self) -> (id: u64)
        requires
            wf_fanout(old(self)@),
            old(self)@.next_id < u64::MAX,
        ensures
            wf_fanout(final(self)@),
            id == old(self)@.next_id,
            final(self)@.published == old(self)@.published,
            final(self)@.next_id == old(self)@.next_id + 1,
            final(self)@.slots == old(self)@.slots.push(
                (SlotView { id, attached_at: old(self)@.published, pending: None }),
            ),
            forall|j: int| 0 <= j < old(self)@.slots.len() ==> old(self)@.slots[j].id != id,
    {
        let id = self.next_id;
        self.next_id = self.next_id + 1;
        let ghost pre = old(self)@;
        self.slots.push(Slot { id, attached_at: self.published, pending: None });
        proof {
            assert(self@.slots =~= pre.slots.push(
                (SlotView { id, attached_at: pre.published, pending: None }),
            ));
        }
        id
    }

    /// Publishes one snapshot: every attached subscriber's slot now holds it,
    /// no matter what the slot held before. Fire and forget: the publisher
    /// never blocks and never fails, subscribers or none.
    pub fn publish(&mut self, snap: &Snapshot)
        requires
            wf_fanout(old(self)@),
            old(self)@.published < u64::MAX,
        ensures
            wf_fanout(final(self)@),
            publish_rel(old(self)@, final(self)@, snap@),
    {
        let ghost pre = old(self)@;
        let stamp = self.published;
        self.published = self.published + 1;
        let mut j: usize = 0;
        while j < self.slots.len()
            invariant
                j <= self.slots@.len(),
                self.slots@.len() == pre.slots.len(),
                self.published == pre.published + 1,
                self.next_id == pre.next_id,
                stamp == pre.published,
                forall|k: int|
                    0 <= k < j ==> slot_view(#[trigger] self.slots@[k]) == (SlotView {
                        id: pre.slots[k].id,
                        attached_at: pre.slots[k].attached_at,
                        pending: Some((pre.published, snap@)),
                    }),
                forall|k: int|
                    j <= k < self.slots@.len() ==> slot_view(#[trigger] self.slots@[k])
                        == pre.slots[k],
            decreases self.slots@.len() - j,
        {
            let id = self.slots[j].id;
            let attached_at = self.slots[j].attached_at;
            let copy = snap.clone();
            self.slots.set(j, Slot { id, attached_at, pending: Some((stamp, copy)) });
            j = j + 1;
        }
        proof {
            assert forall|k: int| 0 <= k < self@.slots.len() implies slot_ok(
                self@.published,
                self@.next_id,
                #[trigger] self@.slots[k],
            ) by {
                assert(slot_ok(pre.published, pre.next_id, pre.slots[k]));
            }
        }
    }

    /// Takes the pending snapshot for subscriber `id`, leaving the slot
    /// empty. Returns nothing when the slot is empty or the handle unknown.
    /// A delivered snapshot was always published at or after the
    /// subscriber's attachment, and before now.
    pub fn recv(&mut self, id: u64) -> (r: Option<Snapshot>)
        requires
            wf_fanout(old(self)@),
        ensures
            wf_fanout(final(self)@),
            final(self)@.published == old(self)@.published,
            final(self)@.next_id == old(self)@.next_id,
            final(self)@.slots.len() == old(self)@.slots.len(),
            forall|k: int|
                0 <= k < old(self)@.slots.len() && old(self)@.slots[k].id != id
                    ==> final(self)@.slots[k] == old(self)@.slots[k],
            forall|k: int|
                0 <= k < old(self)@.slots.len() && old(self)@.slots[k].id == id
                    ==> final(self)@.slots[k] == (SlotView {
                    id,
                    attached_at: old(self)@.slots[k].attached_at,
                    pending: None,
                }),
            match r {
                Some(s) => exists|k: int|
                    0 <= k < old(self)@.slots.len() && #[trigger] old(self)@.slots[k].id == id
                        && old(self)@.slots[k].pending == Some(
                        (old(self)@.slots[k].pending->Some_0.0, s@),
                    ) && old(self)@.slots[k].attached_at <= old(self)@.slots[k].pending->Some_0.0
                        < old(self)@.published,
                None => forall|k: int|
                    0 <= k < old(self)@.slots.len() && #[trigger] old(self)@.slots[k].id == id
                        ==> old(self)@.slots[k].pending is None,
            },
    {
        let ghost pre = old(self)@;
        let mut k: usize = 0;
        while k < self.slots.len()
            invariant
                pre == old(self)@,
                wf_fanout(pre),
                k <= self.slots@.len(),
                self@ == pre,
                forall|i: int| 0 <= i < k ==> #[trigger] pre.slots[i].id != id,
            decreases self.slots@.len() - k,
        {
            if self.slots[k].id == id {
                let slot = self.slots.remove(k);
                let attached_at = slot.attached_at;
                self.slots.insert(k, Slot { id, attached_at, pending: None });
                proof {
                    assert(self@.slots =~= pre.slots.update(
                        k as int,
                        (SlotView { id, attached_at, pending: None }),
                    ));
                }
                match slot.pending {
                    Some(p) => {
                        let (stamp, snap) = p;
                        proof {
                            assert(slot_ok(pre.published, pre.next_id, pre.slots[k as int]));
                            assert(pre.slots[k as int].pending == Some((stamp, snap@)));
                        }
                        return Some(snap);
                    },
                    None => {
                        proof {
                            assert forall|i: int|
                                0 <= i < pre.slots.len() && #[trigger] pre.slots[i].id == id
                                implies pre.slots[i].pending is None by {
                                if i != k as int {
                                    assert(pre.slots[i].id != pre.slots[k as int].id);
                                }
                            }
                        }
                        return None;
                    },
                }
            }
            k = k + 1;
        }
        None
    }

    /// Detaches subscriber `id`; does nothing when the handle is unknown, so
    /// detaching twice is harmless.
    pub fn unsubscribe(&mut self, id: u64)
        requires
            wf_fanout(old(self)@),
        ensures
            wf_fanout(final(self)@),
            final(self)@.published == old(self)@.published,
            final(self)@.next_id == old(self)@.next_id,
            (exists|k: int|
                0 <= k < old(self)@.slots.len() && #[trigger] old(self)@.slots[k].id == id
                    && final(self)@.slots == old(self)@.slots.remove(k)) || ((forall|k: int|
                0 <= k < old(self)@.slots.len() ==> #[trigger] old(self)@.slots[k].id != id)
                && final(self)@.slots == old(self)@.slots),
            forall|k: int| 0 <= k < final(self)@.slots.len() ==> #[trigger] final(self)@.slots[k].id != id,
    {
        let ghost pre = old(self)@;
        let mut k: usize = 0;
        while k < self.slots.len()
            invariant
                pre == old(self)@,
                wf_fanout(pre),
                k <= self.slots@.len(),
                self@ == pre,
                forall|i: int| 0 <= i < k ==> #[trigger] pre.slots[i].id != id,
            decreases self.slots@.len() - k,
        {
            if self.slots[k].id == id {
                self.slots.remove(k);
                proof {
                    assert(self@.slots =~= pre.slots.remove(k as int));
                    assert forall|i: int| 0 <= i < self@.slots.len() implies #[trigger] self@.slots[i].id
                        != id by {
                        if i < k as int {
                            assert(pre.slots[i].id != pre.slots[k as int].id);
                        } else {
                            assert(self@.slots[i] == pre.slots[i + 1]);
                            assert(pre.slots[k as int].id != pre.slots[i + 1].id);
                        }
                    }
                }
                return ;
            }
            k = k + 1;
        }
    }
}

/// Two subscribers attached across the same publish receive the very same
/// content: delivery never diverges between subscribers.
pub proof fn lemma_uniform_delivery(
    pre: FanoutView,
    post: FanoutView,
    content: SnapView,
    i: int,
    j: int,
)
    requires
        publish_rel(pre, post, content),
        0 <= i < post.slots.len(),
        0 <= j < post.slots.len(),
    ensures
        post.slots[i].pending == post.slots[j].pending,
        post.slots[i].pending == Some((pre.published, content)),
{
}

/// However stale a subscriber's slot was before a publish, right after it
/// the slot holds exactly the newest snapshot: a slow subscriber is stale,
/// never permanently stalled.
pub proof fn lemma_latest_value(pre: FanoutView, post: FanoutView, content: SnapView, i: int)
    requires
        publish_rel(pre, post, content),
        0 <= i < post.slots.len(),
    ensures
        post.slots[i].pending == Some((pre.published, content)),
{
}

} // verus!
