//! The websocket-facing relay: the event bus that fans a published event out
//! to every subscriber of its room, the per-session queue operations, and
//! the room selector taken from a connection's request path.
//!
//! Delivery never blocks and never errors towards the publisher: a
//! subscriber whose queue is closed or full is evicted on the spot and
//! receives nothing further.

use vstd::prelude::*;
use vstd::string::StrSliceExecFns;

use crate::codec::all_digits;
use crate::codec::digit_val;
use crate::codec::digits_val;
use crate::codec::is_digit;
use crate::codec::lemma_digits_val_prefix;
use crate::codec::parse_room;
use crate::codec::trim_slashes;
use crate::events::EventMessage;
use crate::events::VoiceMessage;
use crate::registry::RoomRegistry;
use crate::registry::SubView;
use crate::registry::Subscription;
use crate::registry::views_of;
use crate::registry::wf_state;

verus! {

broadcast use vstd::seq_lib::group_seq_properties;

/// The queue bound each new subscription is created with.
pub const QUEUE_CAPACITY: usize = 256;

/// Whether an enqueue into `s` can succeed: the session still accepts
/// events and the bounded queue has room.
pub open spec fn can_deliver(s: SubView) -> bool {
    s.open && s.queue.len() < s.capacity
}

/// `s` after `e` was enqueued.
pub open spec fn delivered(s: SubView, e: EventMessage) -> SubView {
    SubView { queue: s.queue.push(e), ..s }
}

/// What one `publish` leaves of a subscription sequence: subscriptions for
/// other rooms pass through untouched, deliverable subscriptions of the
/// event's room get the event appended, and dead ones — closed or full —
/// are evicted. Order is preserved.
pub open spec fn publish_post(subs: Seq<SubView>, msg: VoiceMessage) -> Seq<SubView>
    decreases subs.len(),
{
    if subs.len() == 0 {
        subs
    } else {
        let rest = publish_post(subs.drop_last(), msg);
        let s = subs.last();
        if s.room != msg.guild {
            rest.push(s)
        } else if can_deliver(s) {
            rest.push(delivered(s, msg.event))
        } else {
            rest
        }
    }
}

/// The subsequence of `subs` registered for rooms other than `room`.
pub open spec fn others(subs: Seq<SubView>, room: u64) -> Seq<SubView> {
    subs.filter(|s: SubView| s.room != room)
}

/// Every subscription a publish leaves behind stems from one that went in:
/// untouched if it was registered for another room, and with exactly the
/// published event appended to a queue that had room for it if it was
/// registered for the event's room.
pub proof fn lemma_publish_post_source(subs: Seq<SubView>, msg: VoiceMessage)
    ensures
        forall|k: int|
            0 <= k < publish_post(subs, msg).len() ==> exists|j: int|
                0 <= j < subs.len() && (((#[trigger] publish_post(subs, msg)[k]) == subs[j]
                    && subs[j].room != msg.guild) || (publish_post(subs, msg)[k] == delivered(
                    subs[j],
                    msg.event,
                ) && subs[j].room == msg.guild && can_deliver(subs[j]))),
    decreases subs.len(),
{
    if subs.len() == 0 {
    } else {
        lemma_publish_post_source(subs.drop_last(), msg);
        let rest = publish_post(subs.drop_last(), msg);
        let post = publish_post(subs, msg);
        assert forall|k: int| 0 <= k < post.len() implies exists|j: int|
            0 <= j < subs.len() && (((#[trigger] post[k]) == subs[j] && subs[j].room != msg.guild)
                || (post[k] == delivered(subs[j], msg.event) && subs[j].room == msg.guild
                && can_deliver(subs[j]))) by {
            if k < rest.len() {
                assert(post[k] == rest[k]);
                let j = choose|j: int|
                    0 <= j < subs.drop_last().len() && (((#[trigger] rest[k]) == subs.drop_last()[j]
                        && subs.drop_last()[j].room != msg.guild) || (rest[k] == delivered(
                        subs.drop_last()[j],
                        msg.event,
                    ) && subs.drop_last()[j].room == msg.guild && can_deliver(
                        subs.drop_last()[j],
                    )));
                assert(subs.drop_last()[j] == subs[j]);
            } else {
                let j = subs.len() - 1;
                assert(subs.last() == subs[j]);
            }
        }
    }
}

/// A publish keeps subscription handles unique.
pub proof fn lemma_publish_post_distinct_ids(subs: Seq<SubView>, msg: VoiceMessage)
    requires
        forall|i: int, j: int| 0 <= i < j < subs.len() ==> subs[i].id != subs[j].id,
    ensures
        forall|i: int, j: int|
            0 <= i < j < publish_post(subs, msg).len() ==> publish_post(subs, msg)[i].id
                != publish_post(subs, msg)[j].id,
    decreases subs.len(),
{
    if subs.len() == 0 {
    } else {
        lemma_publish_post_distinct_ids(subs.drop_last(), msg);
        lemma_publish_post_source(subs.drop_last(), msg);
        let rest = publish_post(subs.drop_last(), msg);
        let post = publish_post(subs, msg);
        assert forall|k: int| 0 <= k < rest.len() implies rest[k].id != subs.last().id by {
            let j = choose|j: int|
                0 <= j < subs.drop_last().len() && (((#[trigger] rest[k]) == subs.drop_last()[j]
                    && subs.drop_last()[j].room != msg.guild) || (rest[k] == delivered(
                    subs.drop_last()[j],
                    msg.event,
                ) && subs.drop_last()[j].room == msg.guild && can_deliver(subs.drop_last()[j])));
            assert(subs.drop_last()[j] == subs[j]);
            assert(subs[j].id != subs[subs.len() - 1].id);
        }
    }
}

/// A publish preserves registry well-formedness.
pub proof fn lemma_publish_post_wf(
    rooms: Seq<u64>,
    subs: Seq<SubView>,
    next_id: u64,
    msg: VoiceMessage,
)
    requires
        wf_state(rooms, subs, next_id),
    ensures
        wf_state(rooms, publish_post(subs, msg), next_id),
{
    lemma_publish_post_source(subs, msg);
    lemma_publish_post_distinct_ids(subs, msg);
    let post = publish_post(subs, msg);
    assert forall|k: int|
        0 <= k < post.len() implies {
        &&& (#[trigger] post[k]).id < next_id
        &&& rooms.contains(post[k].room)
        &&& post[k].queue.len() <= post[k].capacity
        &&& post[k].capacity >= 1
    } by {
        let j = choose|j: int|
            0 <= j < subs.len() && (((#[trigger] post[k]) == subs[j] && subs[j].room != msg.guild)
                || (post[k] == delivered(subs[j], msg.event) && subs[j].room == msg.guild
                && can_deliver(subs[j])));
        assert(subs[j].id < next_id && rooms.contains(subs[j].room) && subs[j].queue.len()
            <= subs[j].capacity && subs[j].capacity >= 1);
    }
}

/// Fan-out completeness: every subscription of the event's room whose queue
/// can take the event — in particular each of any number of subscribers
/// registered before the publish — comes out of the publish with exactly
/// that event appended.
pub proof fn lemma_publish_fanout(subs: Seq<SubView>, msg: VoiceMessage, i: int)
    requires
        0 <= i < subs.len(),
        subs[i].room == msg.guild,
        can_deliver(subs[i]),
    ensures
        exists|k: int|
            0 <= k < publish_post(subs, msg).len() && publish_post(subs, msg)[k] == delivered(
                subs[i],
                msg.event,
            ),
    decreases subs.len(),
{
    let rest = publish_post(subs.drop_last(), msg);
    let post = publish_post(subs, msg);
    if i == subs.len() - 1 {
        assert(subs.last() == subs[i]);
        assert(post[post.len() - 1] == delivered(subs[i], msg.event));
    } else {
        assert(subs.drop_last()[i] == subs[i]);
        lemma_publish_fanout(subs.drop_last(), msg, i);
        let k = choose|k: int|
            0 <= k < rest.len() && rest[k] == delivered(subs.drop_last()[i], msg.event);
        assert(post[k] == rest[k]);
    }
}

/// Isolation: a publish to one room leaves the subscriptions of every other
/// room exactly as they were — nothing is enqueued into them and none of
/// them is evicted.
pub proof fn lemma_publish_isolation(subs: Seq<SubView>, msg: VoiceMessage)
    ensures
        others(publish_post(subs, msg), msg.guild) == others(subs, msg.guild),
    decreases subs.len(),
{
    reveal(Seq::filter);
    let post = publish_post(subs, msg);
    if subs.len() == 0 {
    } else {
        lemma_publish_isolation(subs.drop_last(), msg);
        let rest = publish_post(subs.drop_last(), msg);
        let s = subs.last();
        if s.room != msg.guild {
            assert(post == rest.push(s));
            assert(rest.push(s).drop_last() =~= rest);
            assert(others(post, msg.guild) == others(rest, msg.guild).push(s));
        } else if can_deliver(s) {
            assert(post == rest.push(delivered(s, msg.event)));
            assert(rest.push(delivered(s, msg.event)).drop_last() =~= rest);
            assert(others(post, msg.guild) == others(rest, msg.guild));
        } else {
            assert(post == rest);
        }
    }
}

/// Dead-peer eviction: a subscription of the event's room that cannot take
/// the event — closed, or its queue full — is gone after the publish, and
/// the publish itself reports nothing to the publisher.
pub proof fn lemma_publish_eviction(subs: Seq<SubView>, msg: VoiceMessage, i: int)
    requires
        forall|i1: int, i2: int| 0 <= i1 < i2 < subs.len() ==> subs[i1].id != subs[i2].id,
        0 <= i < subs.len(),
        subs[i].room == msg.guild,
        !can_deliver(subs[i]),
    ensures
        forall|k: int|
            0 <= k < publish_post(subs, msg).len() ==> (#[trigger] publish_post(subs, msg)[k]).id
                != subs[i].id,
{
    lemma_publish_post_source(subs, msg);
    let post = publish_post(subs, msg);
    assert forall|k: int| 0 <= k < post.len() implies (#[trigger] post[k]).id != subs[i].id by {
        let j = choose|j: int|
            0 <= j < subs.len() && (((#[trigger] post[k]) == subs[j] && subs[j].room != msg.guild)
                || (post[k] == delivered(subs[j], msg.event) && subs[j].room == msg.guild
                && can_deliver(subs[j])));
        assert(j != i);
        assert(subs[j].id != subs[i].id);
    }
}

/// The relay's shared state: the registry the bus fans out through.
pub struct WebsocketServer {
    pub registry: RoomRegistry,
}

impl WebsocketServer {
    /// See [`wf_state`].
    pub open spec fn wf(self) -> bool {
        self.registry.wf()
    }

    /// The abstract contents of the registered subscriptions.
    pub open spec fn svs(self) -> Seq<SubView> {
        self.registry.svs()
    }

    /// A relay with no rooms and no subscribers yet.
    pub fn new() -> (r: WebsocketServer)
        ensures
            r.wf(),
            r.registry.rooms@ == Seq::<u64>::empty(),
            r.svs() == Seq::<SubView>::empty(),
            r.registry.next_id == 0,
    {
        WebsocketServer { registry: RoomRegistry::new() }
    }

    /// Fans `msg` out to every subscription of its room, as [`publish_post`]
    /// states: deliverable subscribers get the event, dead ones are evicted,
    /// other rooms' subscribers are untouched. Never blocks the publisher
    /// and never reports an error to it.
    #[verifier::loop_isolation(false)]
    pub fn publish(&mut self, msg: VoiceMessage)
        requires
            old(self).wf(),
        ensures
            final(self).wf(),
            final(self).registry.rooms == old(self).registry.rooms,
            final(self).registry.next_id == old(self).registry.next_id,
            final(self).svs() == publish_post(old(self).svs(), msg),
    {
        let ghost origv = views_of(self.registry.subs@);
        let mut remaining: Vec<Subscription> = Vec::new();
        core::mem::swap(&mut remaining, &mut self.registry.subs);
        let mut kept: Vec<Subscription> = Vec::new();
        let ghost mut done: int = 0;
        while remaining.len() > 0
            invariant
                0 <= done <= origv.len(),
                views_of(remaining@) == origv.skip(done),
                views_of(kept@) == publish_post(origv.take(done), msg),
            decreases remaining@.len(),
        {
            let ghost pre_kept = kept@;
            let ghost pre_rem = remaining@;
            let mut s = remaining.remove(0);
            proof {
                assert(views_of(pre_rem)[0] == s@);
                assert(s@ == origv[done]);
                assert(views_of(remaining@) =~= views_of(pre_rem).remove(0));
                assert(views_of(pre_rem).remove(0) =~= origv.skip(done + 1));
                assert(origv.take(done + 1).drop_last() =~= origv.take(done));
                assert(origv.take(done + 1).last() == origv[done]);
            }
            if s.room == msg.guild {
                if s.open && s.queue.len() < s.capacity {
                    s.queue.push(msg.event);
                    proof {
                        assert(s@ == delivered(origv[done], msg.event));
                    }
                    kept.push(s);
                    proof {
                        assert(views_of(kept@) =~= views_of(pre_kept).push(
                            delivered(origv[done], msg.event),
                        ));
                    }
                }
            } else {
                kept.push(s);
                proof {
                    assert(views_of(kept@) =~= views_of(pre_kept).push(origv[done]));
                }
            }
            proof {
                done = done + 1;
                assert(views_of(kept@) == publish_post(origv.take(done), msg));
            }
        }
        proof {
            assert(views_of(remaining@).len() == 0);
            assert(done == origv.len());
            assert(origv.take(done) =~= origv);
        }
        self.registry.subs = kept;
        proof {
            lemma_publish_post_wf(
                self.registry.rooms@,
                origv,
                self.registry.next_id,
                msg,
            );
        }
    }

    /// Dequeues the oldest pending event of the subscription holding `id`,
    /// as the session's write loop does before sending it to the client.
    pub fn pop_event(&mut self, id: u64) -> (r: Option<EventMessage>)
        requires
            old(self).wf(),
        ensures
            final(self).wf(),
            final(self).registry.rooms == old(self).registry.rooms,
            final(self).registry.next_id == old(self).registry.next_id,
            (forall|j: int| 0 <= j < old(self).svs().len() ==> old(self).svs()[j].id != id)
                ==> *final(self) == *old(self) && r is None,
            forall|j: int|
                0 <= j < old(self).svs().len() && old(self).svs()[j].id == id ==> {
                    if old(self).svs()[j].queue.len() == 0 {
                        *final(self) == *old(self) && r is None
                    } else {
                        r == Some(old(self).svs()[j].queue[0]) && final(self).svs() == old(
                            self,
                        ).svs().update(
                            j,
                            SubView {
                                queue: old(self).svs()[j].queue.drop_first(),
                                ..old(self).svs()[j]
                            },
                        )
                    }
                },
    {
        match self.registry.find_sub(id) {
            Some(i) => {
                if self.registry.subs[i].queue.len() == 0 {
                    None
                } else {
                    let mut s = self.registry.subs.remove(i);
                    let e = s.queue.remove(0);
                    self.registry.subs.insert(i, s);
                    proof {
                        assert(self.svs() =~= old(self).svs().update(
                            i as int,
                            SubView {
                                queue: old(self).svs()[i as int].queue.drop_first(),
                                ..old(self).svs()[i as int]
                            },
                        ));
                        assert forall|j: int|
                            0 <= j < old(self).svs().len() && old(self).svs()[j].id
                                == id implies j == i as int by {}
                    }
                    Some(e)
                }
            },
            None => None,
        }
    }

    /// Attempts to enqueue a `Heartbeat` into the subscription holding
    /// `id`, as the session's heartbeat timer does on each interval.
    /// Returns false — and the session then terminates — when the handle is
    /// gone or the enqueue target cannot take it.
    pub fn enqueue_heartbeat(&mut self, id: u64) -> (r: bool)
        requires
            old(self).wf(),
        ensures
            final(self).wf(),
            final(self).registry.rooms == old(self).registry.rooms,
            final(self).registry.next_id == old(self).registry.next_id,
            (forall|j: int| 0 <= j < old(self).svs().len() ==> old(self).svs()[j].id != id)
                ==> *final(self) == *old(self) && !r,
            forall|j: int|
                0 <= j < old(self).svs().len() && old(self).svs()[j].id == id ==> {
                    if can_deliver(old(self).svs()[j]) {
                        r && final(self).svs() == old(self).svs().update(
                            j,
                            delivered(old(self).svs()[j], EventMessage::Heartbeat),
                        )
                    } else {
                        !r && *final(self) == *old(self)
                    }
                },
    {
        match self.registry.find_sub(id) {
            Some(i) => {
                if self.registry.subs[i].open && self.registry.subs[i].queue.len()
                    < self.registry.subs[i].capacity {
                    let mut s = self.registry.subs.remove(i);
                    s.queue.push(EventMessage::Heartbeat);
                    self.registry.subs.insert(i, s);
                    proof {
                        assert(self.svs() =~= old(self).svs().update(
                            i as int,
                            delivered(old(self).svs()[i as int], EventMessage::Heartbeat),
                        ));
                        assert forall|j: int|
                            0 <= j < old(self).svs().len() && old(self).svs()[j].id
                                == id implies j == i as int by {}
                    }
                    true
                } else {
                    false
                }
            },
            None => false,
        }
    }

    /// Parses a connection path into the room it selects: the decimal room
    /// identifier after any leading slashes. Returns nothing — and the
    /// handshake is then rejected — for a malformed selector.
    pub fn handle_header(path: &str) -> (r: Option<u64>)
        ensures
            r == parse_room(trim_slashes(path@)),
    {
        let start = Self::skip_leading_slashes(path);
        Self::parse_decimal_from(path, start)
    }

    #[verifier::loop_isolation(false)]
    fn skip_leading_slashes(path: &str) -> (start: usize)
        ensures
            0 <= start <= path@.len(),
            trim_slashes(path@) == path@.skip(start as int),
    {
        let n = path.unicode_len();
        let mut start: usize = 0;
        while start < n && path.get_char(start) == '/'
            invariant
                0 <= start <= n,
                n == path@.len(),
                trim_slashes(path@) == trim_slashes(path@.skip(start as int)),
            decreases n - start,
        {
            proof {
                assert(path@.skip(start as int)[0] == path@[start as int]);
                assert(path@.skip(start as int).drop_first() =~= path@.skip(start + 1));
            }
            start = start + 1;
        }
        proof {
            if start < n {
                assert(path@.skip(start as int)[0] == path@[start as int]);
            } else {
                assert(path@.skip(start as int).len() == 0);
            }
        }
        start
    }

    #[verifier::loop_isolation(false)]
    #[verifier::rlimit(50)]
    fn parse_decimal_from(path: &str, start: usize) -> (r: Option<u64>)
        requires
            start <= path@.len(),
        ensures
            r == parse_room(path@.skip(start as int)),
    {
        let ghost t = path@.skip(start as int);
        let n = path.unicode_len();
        let mut value: u64 = 0;
        let mut i: usize = start;
        while i < n
            invariant
                start <= i <= n,
                n == path@.len(),
                t == path@.skip(start as int),
                all_digits(t.take(i - start)),
                value == digits_val(t.take(i - start)),
            decreases n - i,
        {
            let c = path.get_char(i);
            let cv = c as u32;
            proof {
                assert(t[i - start] == path@[i as int]);
            }
            if cv < 48 || cv > 57 {
                proof {
                    assert(!is_digit(t[i - start]));
                    assert(!all_digits(t));
                }
                return None;
            }
            let d = ((cv - 48) as u8) as u64;
            proof {
                assert(t.take(i - start + 1).drop_last() =~= t.take(i - start));
                assert(t.take(i - start + 1).last() == t[i - start]);
                assert(digits_val(t.take(i - start + 1)) == digits_val(t.take(i - start)) * 10
                    + digit_val(t[i - start]));
                assert(digit_val(t[i - start]) == d);
            }
            if value > u64::MAX / 10 || (value == u64::MAX / 10 && d > u64::MAX % 10) {
                proof {
                    assert(digits_val(t.take(i - start + 1)) > u64::MAX);
                    lemma_digits_val_prefix(t, i - start + 1);
                    assert(digits_val(t) > u64::MAX);
                }
                return None;
            }
            value = value * 10 + d;
            i = i + 1;
        }
        proof {
            assert(t.take(n - start) =~= t);
        }
        if value == 0 {
            None
        } else {
            Some(value)
        }
    }
}

} // verus!
