//! The per-room activity tracker: turns noisy, tag-keyed presence signals
//! into a deduplicated participant-level event stream.
//!
//! A media source is identified by a short-lived room-local tag that must be
//! resolved to a durable participant identifier before any event leaves the
//! tracker. The tracker keeps the tag bindings and the set of participants
//! last seen talking, and emits only state transitions.

use std::collections::HashMap;
use vstd::prelude::*;

use crate::events::EventMessage;
use crate::events::VoiceMessage;

verus! {

broadcast use vstd::std_specs::hash::group_hash_axioms, vstd::seq_lib::group_seq_properties;

/// The abstract state of one room's tracker.
pub struct ReceiverView {
    /// The room this tracker belongs to.
    pub guild: u64,
    /// The source-tag to participant bindings seen so far.
    pub bindings: Map<u32, u64>,
    /// The participants currently announced by a `Connected` event.
    pub connected: Set<u64>,
    /// The participants considered talking after the last tick.
    pub talking: Set<u64>,
}

/// The participants that `tags` resolve to under the bindings `b`; tags
/// without a binding are ignored.
pub open spec fn resolved(b: Map<u32, u64>, tags: Seq<u32>) -> Set<u64> {
    Set::new(
        |p: u64|
            exists|i: int|
                0 <= i < tags.len() && b.contains_key(#[trigger] tags[i]) && b[tags[i]] == p,
    )
}

/// The event a `bind_source(tag, participant)` call emits in a tracker for
/// room `g` whose bindings are `b` and announced participants are `conn`:
/// `Connected` exactly when the tag is unbound and the participant is not
/// already announced. A re-bound tag emits nothing, and a new tag for an
/// already-connected participant — a re-binding, as after a source
/// reconnect — emits no duplicate `Connected`.
pub open spec fn bind_event(
    g: u64,
    b: Map<u32, u64>,
    conn: Set<u64>,
    tag: u32,
    participant: u64,
) -> Option<VoiceMessage> {
    if b.contains_key(tag) || conn.contains(participant) {
        None
    } else {
        Some(VoiceMessage::connected(g, participant))
    }
}

/// How a tick with the talking tags `tags` transforms the tracker state
/// `pre` into `post` while emitting `events`: `Speaking` for exactly the
/// newly talking participants, `Quiet` for exactly the newly silent ones,
/// each at most once, and the talking set replaced by what `tags` resolve
/// to.
pub open spec fn tick_post(
    pre: ReceiverView,
    tags: Seq<u32>,
    post: ReceiverView,
    events: Seq<VoiceMessage>,
) -> bool {
    let cur = resolved(pre.bindings, tags);
    &&& post.guild == pre.guild
    &&& post.bindings == pre.bindings
    &&& post.connected == pre.connected
    &&& post.talking == cur
    &&& forall|p: u64|
        #[trigger] events.contains(VoiceMessage::speaking(pre.guild, p)) <==> cur.contains(p)
            && !pre.talking.contains(p)
    &&& forall|p: u64|
        #[trigger] events.contains(VoiceMessage::quiet(pre.guild, p)) <==> pre.talking.contains(p)
            && !cur.contains(p)
    &&& forall|k: int|
        0 <= k < events.len() ==> (#[trigger] events[k]).guild == pre.guild && (events[k].event
            is Speaking || events[k].event is Quiet)
    &&& forall|k1: int, k2: int| 0 <= k1 < k2 < events.len() ==> events[k1] != events[k2]
}

/// One room's activity tracker. All calls for one room are expected to be
/// serialized by the caller; distinct rooms each have their own `Receiver`.
pub struct Receiver {
    guild_id: u64,
    known_ssrcs: HashMap<u32, u64>,
    connected: Vec<u64>,
    last_talking: Vec<u64>,
}

impl View for Receiver {
    type V = ReceiverView;

    closed spec fn view(&self) -> ReceiverView {
        ReceiverView {
            guild: self.guild_id,
            bindings: self.known_ssrcs@,
            connected: self.connected@.to_set(),
            talking: self.last_talking@.to_set(),
        }
    }
}

/// A raw presence signal from the voice layer, as one closed variant per
/// kind of signal.
pub enum VoiceSignal {
    /// A media source announced which participant it carries.
    Bind { tag: u32, participant: u64 },
    /// One sampling interval's set of audibly talking source tags.
    Tick { talking: Vec<u32> },
    /// A participant left the room.
    Disconnect { participant: u64 },
}

/// The events a signal makes the tracker emit, as a sequence.
pub open spec fn opt_events(o: Option<VoiceMessage>) -> Seq<VoiceMessage> {
    match o {
        Some(m) => seq![m],
        None => Seq::empty(),
    }
}

/// One tag extends the resolved set by its binding, if it has one.
proof fn lemma_resolved_take_step(b: Map<u32, u64>, tags: Seq<u32>, i: int)
    requires
        0 <= i < tags.len(),
    ensures
        b.contains_key(tags[i]) ==> resolved(b, tags.take(i + 1)) =~= resolved(
            b,
            tags.take(i),
        ).insert(b[tags[i]]),
        !b.contains_key(tags[i]) ==> resolved(b, tags.take(i + 1)) =~= resolved(b, tags.take(i)),
{
    let t0 = tags.take(i);
    let t1 = tags.take(i + 1);
    assert forall|p: u64| resolved(b, t1).contains(p) implies resolved(b, t0).contains(p) || (
    b.contains_key(tags[i]) && p == b[tags[i]]) by {
        let j = choose|j: int|
            0 <= j < t1.len() && b.contains_key(#[trigger] t1[j]) && b[t1[j]] == p;
        if j < i {
            assert(t0[j] == tags[j]);
            assert(0 <= j < t0.len() && b.contains_key(t0[j]) && b[t0[j]] == p);
        } else {
            assert(t1[j] == tags[i]);
        }
    }
    assert forall|p: u64| resolved(b, t0).contains(p) implies resolved(b, t1).contains(p) by {
        let j = choose|j: int|
            0 <= j < t0.len() && b.contains_key(#[trigger] t0[j]) && b[t0[j]] == p;
        assert(t1[j] == tags[j]);
        assert(0 <= j < t1.len() && b.contains_key(t1[j]) && b[t1[j]] == p);
    }
    if b.contains_key(tags[i]) {
        assert(t1[i] == tags[i]);
        assert(0 <= i < t1.len() && b.contains_key(t1[i]) && b[t1[i]] == b[tags[i]]);
        assert(resolved(b, t1).contains(b[tags[i]]));
    }
}

/// Taking one more element extends prefix membership by exactly that element.
proof fn lemma_take_succ_contains<A>(s: Seq<A>, i: int, x: A)
    requires
        0 <= i < s.len(),
    ensures
        s.take(i + 1).contains(x) <==> s.take(i).contains(x) || x == s[i],
{
    assert(s.take(i + 1) =~= s.take(i).push(s[i]));
}

fn contains_u64(v: &Vec<u64>, x: u64) -> (r: bool)
    ensures
        r == v@.contains(x),
{
    let mut i: usize = 0;
    while i < v.len()
        invariant
            0 <= i <= v@.len(),
            forall|j: int| 0 <= j < i ==> v@[j] != x,
        decreases v@.len() - i,
    {
        if v[i] == x {
            return true;
        }
        i = i + 1;
    }
    false
}

impl Receiver {
    /// No two entries of `last_talking` or of `connected` repeat a
    /// participant.
    pub closed spec fn wf(self) -> bool {
        &&& forall|i: int, j: int|
            0 <= i < j < self.last_talking@.len() ==> self.last_talking@[i]
                != self.last_talking@[j]
        &&& forall|i: int, j: int|
            0 <= i < j < self.connected@.len() ==> self.connected@[i] != self.connected@[j]
    }

    /// A fresh tracker for room `guild_id`: no bindings, nobody announced,
    /// nobody talking.
    pub fn new(guild_id: u64) -> (r: Receiver)
        ensures
            r.wf(),
            r@.guild == guild_id,
            r@.bindings == Map::<u32, u64>::empty(),
            r@.connected == Set::<u64>::empty(),
            r@.talking == Set::<u64>::empty(),
    {
        let r = Receiver {
            guild_id,
            known_ssrcs: HashMap::new(),
            connected: Vec::new(),
            last_talking: Vec::new(),
        };
        proof {
            assert(r.last_talking@.to_set() =~= Set::<u64>::empty());
            assert(r.connected@.to_set() =~= Set::<u64>::empty());
        }
        r
    }

    /// Records that source `tag` carries `participant`. On the first
    /// sighting of both the tag and the participant this emits
    /// `Connected(participant)` exactly once; a repeated binding of an
    /// already-seen tag, or a new tag for an already-announced participant,
    /// emits nothing.
    pub fn bind_source(&mut self, tag: u32, participant: u64) -> (r: Option<VoiceMessage>)
        requires
            old(self).wf(),
        ensures
            final(self).wf(),
            final(self)@.guild == old(self)@.guild,
            final(self)@.talking == old(self)@.talking,
            final(self)@.bindings == old(self)@.bindings.insert(tag, participant),
            r == bind_event(
                old(self)@.guild,
                old(self)@.bindings,
                old(self)@.connected,
                tag,
                participant,
            ),
            final(self)@.connected == if r is Some {
                old(self)@.connected.insert(participant)
            } else {
                old(self)@.connected
            },
    {
        let previous = self.known_ssrcs.insert(tag, participant);
        if previous.is_none() && !contains_u64(&self.connected, participant) {
            let ghost pre = self.connected@;
            self.connected.push(participant);
            proof {
                assert(self.connected@.to_set() =~= pre.to_set().insert(participant));
            }
            Some(VoiceMessage { guild: self.guild_id, event: EventMessage::Connected(participant) })
        } else {
            None
        }
    }

    /// Processes one sampling interval: resolves the talking tags, emits
    /// `Speaking` for each newly talking participant and `Quiet` for each
    /// newly silent one, and replaces the talking set — as [`tick_post`]
    /// states.
    #[verifier::loop_isolation(false)]
    #[verifier::rlimit(50)]
    pub fn process_tick(&mut self, talking_tags: &Vec<u32>) -> (events: Vec<VoiceMessage>)
        requires
            old(self).wf(),
        ensures
            final(self).wf(),
            tick_post(old(self)@, talking_tags@, final(self)@, events@),
    {
        let ghost b = self.known_ssrcs@;
        let ghost g = self.guild_id;
        let ghost tags = talking_tags@;

        let mut current: Vec<u64> = Vec::new();
        let mut i: usize = 0;
        while i < talking_tags.len()
            invariant
                0 <= i <= tags.len(),
                current@.to_set() == resolved(b, tags.take(i as int)),
                forall|k1: int, k2: int|
                    0 <= k1 < k2 < current@.len() ==> current@[k1] != current@[k2],
            decreases tags.len() - i,
        {
            let ghost pre = current@;
            let tag = talking_tags[i];
            proof {
                lemma_resolved_take_step(b, tags, i as int);
            }
            match self.known_ssrcs.get(&tag) {
                Some(p) => {
                    let p = *p;
                    if !contains_u64(&current, p) {
                        current.push(p);
                        proof {
                            assert(current@.to_set() =~= pre.to_set().insert(p));
                        }
                    } else {
                        proof {
                            assert(pre.to_set().insert(p) =~= pre.to_set());
                        }
                    }
                    proof {
                        assert(current@.to_set() =~= resolved(b, tags.take(i + 1)));
                    }
                },
                None => {
                    proof {
                        assert(current@.to_set() =~= resolved(b, tags.take(i + 1)));
                    }
                },
            }
            i = i + 1;
        }
        proof {
            assert(tags.take(tags.len() as int) =~= tags);
        }
        let ghost cur = resolved(b, tags);
        let ghost old_talk = self.last_talking@.to_set();
        proof {
            assert(cur =~= current@.to_set());
            assert(forall|p: u64| #[trigger] cur.contains(p) <==> current@.contains(p));
            assert(forall|p: u64| #[trigger] old_talk.contains(p) <==> self.last_talking@.contains(
                p,
            ));
        }

        let mut events: Vec<VoiceMessage> = Vec::new();
        let mut i: usize = 0;
        while i < current.len()
            invariant
                0 <= i <= current@.len(),
                forall|p: u64|
                    #[trigger] events@.contains(VoiceMessage::speaking(g, p)) <==> current@.take(
                        i as int,
                    ).contains(p) && !old_talk.contains(p),
                forall|k: int|
                    0 <= k < events@.len() ==> (#[trigger] events@[k]).guild == g
                        && events@[k].event is Speaking,
                forall|k1: int, k2: int|
                    0 <= k1 < k2 < events@.len() ==> events@[k1] != events@[k2],
            decreases current@.len() - i,
        {
            let ghost pre_events = events@;
            let p = current[i];
            proof {
                assert(!current@.take(i as int).contains(p)) by {
                    if current@.take(i as int).contains(p) {
                        let j = choose|j: int|
                            0 <= j < current@.take(i as int).len() && current@.take(i as int)[j]
                                == p;
                        assert(current@[j] == current@[i as int]);
                    }
                }
                assert(!events@.contains(VoiceMessage::speaking(g, p)));
            }
            let newly = !contains_u64(&self.last_talking, p);
            if newly {
                events.push(VoiceMessage { guild: self.guild_id, event: EventMessage::Speaking(p) });
                proof {
                    assert(events@ == pre_events.push(VoiceMessage::speaking(g, p)));
                }
            }
            proof {
                assert forall|q: u64|
                    events@.contains(VoiceMessage::speaking(g, q)) <==> current@.take(
                        i + 1,
                    ).contains(q) && !old_talk.contains(q) by {
                    lemma_take_succ_contains(current@, i as int, q);
                    assert(pre_events.contains(VoiceMessage::speaking(g, q)) <==> current@.take(
                        i as int,
                    ).contains(q) && !old_talk.contains(q));
                    if newly {
                        assert(events@.contains(VoiceMessage::speaking(g, q))
                            <==> pre_events.contains(VoiceMessage::speaking(g, q))
                            || VoiceMessage::speaking(g, q) == VoiceMessage::speaking(g, p));
                    }
                }
            }
            i = i + 1;
        }
        proof {
            assert(current@.take(current@.len() as int) =~= current@);
        }

        let mut i: usize = 0;
        while i < self.last_talking.len()
            invariant
                0 <= i <= self.last_talking@.len(),
                forall|p: u64|
                    #[trigger] events@.contains(VoiceMessage::speaking(g, p)) <==> cur.contains(p)
                        && !old_talk.contains(p),
                forall|p: u64|
                    #[trigger] events@.contains(VoiceMessage::quiet(g, p)) <==> self.last_talking@.take(
                        i as int,
                    ).contains(p) && !cur.contains(p),
                forall|k: int|
                    0 <= k < events@.len() ==> (#[trigger] events@[k]).guild == g
                        && (events@[k].event is Speaking || events@[k].event is Quiet),
                forall|k1: int, k2: int|
                    0 <= k1 < k2 < events@.len() ==> events@[k1] != events@[k2],
            decreases self.last_talking@.len() - i,
        {
            let ghost pre_events = events@;
            let p = self.last_talking[i];
            proof {
                assert(!self.last_talking@.take(i as int).contains(p)) by {
                    if self.last_talking@.take(i as int).contains(p) {
                        let j = choose|j: int|
                            0 <= j < self.last_talking@.take(i as int).len()
                                && self.last_talking@.take(i as int)[j] == p;
                        assert(self.last_talking@[j] == self.last_talking@[i as int]);
                    }
                }
                assert(!events@.contains(VoiceMessage::quiet(g, p)));
            }
            let still = contains_u64(&current, p);
            if !still {
                events.push(VoiceMessage { guild: self.guild_id, event: EventMessage::Quiet(p) });
                proof {
                    assert(events@ == pre_events.push(VoiceMessage::quiet(g, p)));
                }
            }
            proof {
                assert forall|q: u64|
                    events@.contains(VoiceMessage::quiet(g, q)) <==> self.last_talking@.take(
                        i + 1,
                    ).contains(q) && !cur.contains(q) by {
                    lemma_take_succ_contains(self.last_talking@, i as int, q);
                    assert(pre_events.contains(VoiceMessage::quiet(g, q))
                        <==> self.last_talking@.take(i as int).contains(q) && !cur.contains(q));
                    if !still {
                        assert(events@.contains(VoiceMessage::quiet(g, q))
                            <==> pre_events.contains(VoiceMessage::quiet(g, q))
                            || VoiceMessage::quiet(g, q) == VoiceMessage::quiet(g, p));
                    }
                }
                assert forall|q: u64|
                    events@.contains(VoiceMessage::speaking(g, q)) <==> cur.contains(q)
                        && !old_talk.contains(q) by {
                    assert(pre_events.contains(VoiceMessage::speaking(g, q)) <==> cur.contains(q)
                        && !old_talk.contains(q));
                    if !still {
                        assert(events@.contains(VoiceMessage::speaking(g, q))
                            <==> pre_events.contains(VoiceMessage::speaking(g, q))
                            || VoiceMessage::speaking(g, q) == VoiceMessage::quiet(g, p));
                    }
                }
            }
            i = i + 1;
        }
        proof {
            assert(self.last_talking@.take(self.last_talking@.len() as int)
                =~= self.last_talking@);
        }

        self.last_talking = current;
        events
    }

    /// Emits `Disconnected(participant)` unconditionally — a disconnect of a
    /// participant that never spoke still fires — and withdraws the
    /// participant's announcement, so a later re-binding announces it
    /// again. Bindings and the talking set are untouched, so stale ticks
    /// naming the participant keep resolving; that churn is accepted.
    pub fn disconnect(&mut self, participant: u64) -> (r: VoiceMessage)
        requires
            old(self).wf(),
        ensures
            final(self).wf(),
            final(self)@.guild == old(self)@.guild,
            final(self)@.bindings == old(self)@.bindings,
            final(self)@.talking == old(self)@.talking,
            final(self)@.connected == old(self)@.connected.remove(participant),
            r == VoiceMessage::disconnected(old(self)@.guild, participant),
    {
        let ghost pre = self.connected@;
        let mut i: usize = 0;
        let mut found = false;
        while i < self.connected.len() && !found
            invariant
                0 <= i <= self.connected@.len(),
                self.connected@ == pre,
                !found ==> forall|j: int| 0 <= j < i ==> pre[j] != participant,
                found ==> i < pre.len() && pre[i as int] == participant,
            decreases pre.len() - i + (if found { 0int } else { 1int }),
        {
            if self.connected[i] == participant {
                found = true;
            } else {
                i = i + 1;
            }
        }
        if found {
            self.connected.remove(i);
            proof {
                lemma_remove_to_set(pre, i as int);
            }
        } else {
            proof {
                assert(pre.to_set().remove(participant) =~= pre.to_set());
            }
        }
        VoiceMessage { guild: self.guild_id, event: EventMessage::Disconnected(participant) }
    }

    /// Consumes one raw presence signal: each closed variant goes to its
    /// typed handler, and the events to publish for this room come back.
    pub fn act(&mut self, signal: &VoiceSignal) -> (events: Vec<VoiceMessage>)
        requires
            old(self).wf(),
        ensures
            final(self).wf(),
            match *signal {
                VoiceSignal::Bind { tag, participant } => {
                    &&& final(self)@.guild == old(self)@.guild
                    &&& final(self)@.talking == old(self)@.talking
                    &&& final(self)@.bindings == old(self)@.bindings.insert(tag, participant)
                    &&& events@ == opt_events(
                        bind_event(
                            old(self)@.guild,
                            old(self)@.bindings,
                            old(self)@.connected,
                            tag,
                            participant,
                        ),
                    )
                    &&& final(self)@.connected == if events@.len() > 0 {
                        old(self)@.connected.insert(participant)
                    } else {
                        old(self)@.connected
                    }
                },
                VoiceSignal::Tick { talking } => tick_post(
                    old(self)@,
                    talking@,
                    final(self)@,
                    events@,
                ),
                VoiceSignal::Disconnect { participant } => {
                    &&& final(self)@.guild == old(self)@.guild
                    &&& final(self)@.bindings == old(self)@.bindings
                    &&& final(self)@.talking == old(self)@.talking
                    &&& final(self)@.connected == old(self)@.connected.remove(participant)
                    &&& events@ == seq![
                        VoiceMessage::disconnected(old(self)@.guild, participant),
                    ]
                },
            },
    {
        match signal {
            VoiceSignal::Bind { tag, participant } => {
                let mut events: Vec<VoiceMessage> = Vec::new();
                if let Some(m) = self.bind_source(*tag, *participant) {
                    events.push(m);
                }
                events
            },
            VoiceSignal::Tick { talking } => self.process_tick(talking),
            VoiceSignal::Disconnect { participant } => {
                let mut events: Vec<VoiceMessage> = Vec::new();
                events.push(self.disconnect(*participant));
                events
            },
        }
    }
}

/// Dedup law: once a tracker holds a binding of `tag` to `participant` — as
/// it does after any `bind_source(tag, participant)` call, whatever its
/// announced set `conn` became — repeating that call emits no event and
/// leaves the bindings as they were. Hence a run of one or more identical
/// `bind_source(tag, participant)` calls produces exactly one
/// `Connected(participant)` event, from the first call at the latest.
pub proof fn lemma_bind_source_dedup(
    g: u64,
    b: Map<u32, u64>,
    conn: Set<u64>,
    tag: u32,
    participant: u64,
)
    ensures
        bind_event(g, b.insert(tag, participant), conn, tag, participant) is None,
        b.insert(tag, participant).insert(tag, participant) == b.insert(tag, participant),
{
    assert(b.insert(tag, participant).insert(tag, participant) =~= b.insert(tag, participant));
}

/// Re-binding law: while a participant stands announced, no binding of any
/// tag to it — in particular a fresh tag after a source reconnect — emits a
/// duplicate `Connected` event.
pub proof fn lemma_rebind_no_duplicate(
    g: u64,
    b: Map<u32, u64>,
    conn: Set<u64>,
    tag: u32,
    participant: u64,
)
    requires
        conn.contains(participant),
    ensures
        bind_event(g, b, conn, tag, participant) is None,
{
}

/// Removing the only occurrence of an element drops exactly it from the
/// element set.
proof fn lemma_remove_to_set(s: Seq<u64>, i: int)
    requires
        0 <= i < s.len(),
        forall|j1: int, j2: int| 0 <= j1 < j2 < s.len() ==> s[j1] != s[j2],
    ensures
        s.remove(i).to_set() =~= s.to_set().remove(s[i]),
{
    let r = s.remove(i);
    assert forall|q: u64| r.to_set().contains(q) implies s.to_set().remove(s[i]).contains(q) by {
        let j = choose|j: int| 0 <= j < r.len() && r[j] == q;
        if j < i {
            assert(s[j] == q);
        } else {
            assert(s[j + 1] == q);
        }
    }
    assert forall|q: u64| s.to_set().remove(s[i]).contains(q) implies r.to_set().contains(q) by {
        let j = choose|j: int| 0 <= j < s.len() && s[j] == q;
        if j < i {
            assert(r[j] == q);
        } else {
            assert(j != i);
            assert(r[j - 1] == q);
        }
    }
}

} // verus!
