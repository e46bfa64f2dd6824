//! The room registry: the process-wide map from room identifier to the
//! outbound subscriptions currently registered for that room.
//!
//! A room's fan-out point is created on first reference and retained for the
//! life of the registry, even with no subscribers left. Each subscription
//! owns a bounded outbound queue; a closed or overflowing queue marks the
//! subscriber dead, and the fan-out path evicts it.

use vstd::prelude::*;

use crate::events::EventMessage;

verus! {

broadcast use vstd::seq_lib::group_seq_properties;

/// The abstract state of one registered subscription.
#[verifier::ext_equal]
pub struct SubView {
    /// The handle the subscriber holds.
    pub id: u64,
    /// The room whose events this subscription receives.
    pub room: u64,
    /// The pending outbound events, oldest first.
    pub queue: Seq<EventMessage>,
    /// The queue's bound; enqueueing beyond it marks the subscriber dead.
    pub capacity: nat,
    /// Whether the subscriber's session still accepts events.
    pub open: bool,
}

/// One websocket subscriber's registration: its room and its bounded
/// outbound event queue.
pub struct Subscription {
    pub id: u64,
    pub room: u64,
    pub queue: Vec<EventMessage>,
    pub capacity: usize,
    pub open: bool,
}

impl View for Subscription {
    type V = SubView;

    open spec fn view(&self) -> SubView {
        SubView {
            id: self.id,
            room: self.room,
            queue: self.queue@,
            capacity: self.capacity as nat,
            open: self.open,
        }
    }
}

/// The abstract contents of a subscription sequence.
pub open spec fn views_of(subs: Seq<Subscription>) -> Seq<SubView> {
    subs.map_values(|s: Subscription| s@)
}

/// Well-formedness of a registry state: room entries are unique, handles are
/// unique and below the allocator's next value, every subscription's room
/// has its entry, and no queue outgrows its (positive) bound.
pub open spec fn wf_state(rooms: Seq<u64>, subs: Seq<SubView>, next_id: u64) -> bool {
    &&& forall|i: int, j: int| 0 <= i < j < rooms.len() ==> rooms[i] != rooms[j]
    &&& forall|i: int, j: int| 0 <= i < j < subs.len() ==> subs[i].id != subs[j].id
    &&& forall|i: int|
        0 <= i < subs.len() ==> {
            &&& (#[trigger] subs[i]).id < next_id
            &&& rooms.contains(subs[i].room)
            &&& subs[i].queue.len() <= subs[i].capacity
            &&& subs[i].capacity >= 1
        }
}

/// The process-wide registry of rooms and their subscriptions.
pub struct RoomRegistry {
    /// The rooms with a fan-out point, in creation order.
    pub rooms: Vec<u64>,
    /// Every live subscription, in registration order.
    pub subs: Vec<Subscription>,
    /// The next unused subscription handle.
    pub next_id: u64,
}

impl RoomRegistry {
    /// The abstract contents of the registered subscriptions.
    pub open spec fn svs(self) -> Seq<SubView> {
        views_of(self.subs@)
    }

    /// See [`wf_state`].
    pub open spec fn wf(self) -> bool {
        wf_state(self.rooms@, self.svs(), self.next_id)
    }

    /// An empty registry.
    pub fn new() -> (r: RoomRegistry)
        ensures
            r.wf(),
            r.rooms@ == Seq::<u64>::empty(),
            r.svs() == Seq::<SubView>::empty(),
            r.next_id == 0,
    {
        let r = RoomRegistry { rooms: Vec::new(), subs: Vec::new(), next_id: 0 };
        proof {
            assert(r.svs() =~= Seq::<SubView>::empty());
        }
        r
    }

    fn find_room(&self, room: u64) -> (r: bool)
        ensures
            r == self.rooms@.contains(room),
    {
        let mut i: usize = 0;
        while i < self.rooms.len()
            invariant
                0 <= i <= self.rooms@.len(),
                forall|j: int| 0 <= j < i ==> self.rooms@[j] != room,
            decreases self.rooms@.len() - i,
        {
            if self.rooms[i] == room {
                return true;
            }
            i = i + 1;
        }
        false
    }

    /// Returns the index of the subscription holding handle `id`, if any.
    pub(crate) fn find_sub(&self, id: u64) -> (r: Option<usize>)
        ensures
            match r {
                Some(i) => 0 <= i < self.svs().len() && self.svs()[i as int].id == id,
                None => forall|j: int| 0 <= j < self.svs().len() ==> self.svs()[j].id != id,
            },
    {
        let mut i: usize = 0;
        while i < self.subs.len()
            invariant
                0 <= i <= self.subs@.len(),
                forall|j: int| 0 <= j < i ==> self.svs()[j].id != id,
            decreases self.subs@.len() - i,
        {
            if self.subs[i].id == id {
                return Some(i);
            }
            i = i + 1;
        }
        None
    }

    /// Ensures room `room` has its fan-out point, creating it if this is the
    /// room's first reference. Subscriptions are untouched.
    pub fn get(&mut self, room: u64)
        requires
            old(self).wf(),
        ensures
            final(self).wf(),
            final(self).rooms@.contains(room),
            old(self).rooms@.contains(room) ==> final(self).rooms@ == old(self).rooms@,
            !old(self).rooms@.contains(room) ==> final(self).rooms@ == old(self).rooms@.push(
                room,
            ),
            final(self).subs == old(self).subs,
            final(self).next_id == old(self).next_id,
    {
        if !self.find_room(room) {
            self.rooms.push(room);
        }
    }

    /// Registers a new subscription for `room` with queue bound `capacity`
    /// and returns the handle the subscriber retains; the room's fan-out
    /// point is created if absent.
    pub fn subscribe(&mut self, room: u64, capacity: usize) -> (id: u64)
        requires
            old(self).wf(),
            capacity >= 1,
            old(self).next_id < u64::MAX,
        ensures
            final(self).wf(),
            id == old(self).next_id,
            final(self).next_id == old(self).next_id + 1,
            final(self).svs() == old(self).svs().push(
                SubView {
                    id: id,
                    room: room,
                    queue: Seq::empty(),
                    capacity: capacity as nat,
                    open: true,
                },
            ),
            final(self).rooms@.contains(room),
            old(self).rooms@.contains(room) ==> final(self).rooms@ == old(self).rooms@,
            !old(self).rooms@.contains(room) ==> final(self).rooms@ == old(self).rooms@.push(
                room,
            ),
    {
        self.get(room);
        let id = self.next_id;
        self.next_id = self.next_id + 1;
        let sub = Subscription { id, room, queue: Vec::new(), capacity, open: true };
        self.subs.push(sub);
        proof {
            assert(self.svs() =~= old(self).svs().push(
                SubView {
                    id: id,
                    room: room,
                    queue: Seq::empty(),
                    capacity: capacity as nat,
                    open: true,
                },
            ));
        }
        id
    }

    /// Removes the subscription holding `id`. Idempotent: removing an
    /// already-removed handle is a no-op. The room's entry is retained.
    pub fn unsubscribe(&mut self, id: u64)
        requires
            old(self).wf(),
        ensures
            final(self).wf(),
            final(self).rooms == old(self).rooms,
            final(self).next_id == old(self).next_id,
            (forall|j: int| 0 <= j < old(self).svs().len() ==> old(self).svs()[j].id != id)
                ==> final(self).subs == old(self).subs,
            forall|j: int|
                0 <= j < old(self).svs().len() && old(self).svs()[j].id == id ==> final(self).svs()
                    == old(self).svs().remove(j),
    {
        match self.find_sub(id) {
            Some(i) => {
                self.subs.remove(i);
                proof {
                    assert(self.svs() =~= old(self).svs().remove(i as int));
                    assert forall|j: int|
                        0 <= j < old(self).svs().len() && old(self).svs()[j].id == id implies self
                        .svs() == old(self).svs().remove(j) by {
                        assert(j == i as int);
                    }
                }
            },
            None => {},
        }
    }

    /// Marks the subscription holding `id` as no longer accepting events, as
    /// when its session has terminated; the next delivery attempt evicts it.
    pub fn close(&mut self, id: u64)
        requires
            old(self).wf(),
        ensures
            final(self).wf(),
            final(self).rooms == old(self).rooms,
            final(self).next_id == old(self).next_id,
            (forall|j: int| 0 <= j < old(self).svs().len() ==> old(self).svs()[j].id != id)
                ==> final(self).subs == old(self).subs,
            forall|j: int|
                0 <= j < old(self).svs().len() && old(self).svs()[j].id == id ==> final(self).svs()
                    == old(self).svs().update(
                    j,
                    SubView { open: false, ..old(self).svs()[j] },
                ),
    {
        match self.find_sub(id) {
            Some(i) => {
                let mut s = self.subs.remove(i);
                s.open = false;
                self.subs.insert(i, s);
                proof {
                    assert(self.svs() =~= old(self).svs().update(
                        i as int,
                        SubView { open: false, ..old(self).svs()[i as int] },
                    ));
                    assert forall|j: int|
                        0 <= j < old(self).svs().len() && old(self).svs()[j].id == id implies self
                        .svs() == old(self).svs().update(
                        j,
                        SubView { open: false, ..old(self).svs()[j] },
                    ) by {
                        assert(j == i as int);
                    }
                }
            },
            None => {},
        }
    }
}

} // verus!
