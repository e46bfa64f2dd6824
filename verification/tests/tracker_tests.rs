use greenscreen::events::EventMessage;
use greenscreen::events::VoiceMessage;
use greenscreen::tracker::Receiver;
use greenscreen::tracker::VoiceSignal;

fn msg(guild: u64, event: EventMessage) -> VoiceMessage {
    VoiceMessage { guild, event }
}

#[test]
fn bind_dedup_repeated_pair() {
    let mut r = Receiver::new(1);
    assert_eq!(r.bind_source(7, 100), Some(msg(1, EventMessage::Connected(100))));
    assert_eq!(r.bind_source(7, 100), None);
    assert_eq!(r.bind_source(7, 100), None);
}

#[test]
fn rebind_new_tag_same_participant_emits_nothing() {
    let mut r = Receiver::new(1);
    assert_eq!(r.bind_source(7, 100), Some(msg(1, EventMessage::Connected(100))));
    assert_eq!(r.bind_source(8, 100), None);
}

#[test]
fn bind_after_disconnect_announces_again() {
    let mut r = Receiver::new(1);
    assert_eq!(r.bind_source(7, 100), Some(msg(1, EventMessage::Connected(100))));
    assert_eq!(r.disconnect(100), msg(1, EventMessage::Disconnected(100)));
    assert_eq!(r.bind_source(8, 100), Some(msg(1, EventMessage::Connected(100))));
}

#[test]
fn disconnect_fires_without_any_bind() {
    let mut r = Receiver::new(9);
    assert_eq!(r.disconnect(55), msg(9, EventMessage::Disconnected(55)));
}

#[test]
fn tick_diff_speaking_and_quiet() {
    // lastTalking = {A, B}; a tick resolving to {B, C} emits exactly
    // Speaking(C) and Quiet(A).
    let mut r = Receiver::new(1);
    r.bind_source(1, 100); // A
    r.bind_source(2, 200); // B
    r.bind_source(3, 300); // C

    let events = r.process_tick(&vec![1, 2]);
    assert_eq!(events.len(), 2);
    assert!(events.contains(&msg(1, EventMessage::Speaking(100))));
    assert!(events.contains(&msg(1, EventMessage::Speaking(200))));

    let events = r.process_tick(&vec![2, 3]);
    assert_eq!(events.len(), 2);
    assert!(events.contains(&msg(1, EventMessage::Speaking(300))));
    assert!(events.contains(&msg(1, EventMessage::Quiet(100))));

    // B kept talking: a repeat of the same tick emits nothing.
    let events = r.process_tick(&vec![2, 3]);
    assert_eq!(events.len(), 0);
}

#[test]
fn tick_ignores_unbound_tags() {
    let mut r = Receiver::new(1);
    let events = r.process_tick(&vec![9, 10]);
    assert_eq!(events.len(), 0);
}

#[test]
fn tick_two_tags_one_participant() {
    let mut r = Receiver::new(1);
    r.bind_source(7, 100);
    r.disconnect(100);
    r.bind_source(8, 100);
    // both tags resolve to the same participant: one Speaking only
    let events = r.process_tick(&vec![7, 8]);
    assert_eq!(events, vec![msg(1, EventMessage::Speaking(100))]);
}

#[test]
fn stale_ticks_after_disconnect_keep_resolving() {
    let mut r = Receiver::new(1);
    r.bind_source(7, 100);
    assert_eq!(r.process_tick(&vec![7]), vec![msg(1, EventMessage::Speaking(100))]);
    r.disconnect(100);
    // the stale tag still resolves; the participant was already talking,
    // so nothing new is emitted
    assert_eq!(r.process_tick(&vec![7]).len(), 0);
    // and dropping out of the tick still emits Quiet
    assert_eq!(r.process_tick(&vec![]), vec![msg(1, EventMessage::Quiet(100))]);
}

#[test]
fn act_routes_each_signal() {
    let mut r = Receiver::new(4);
    let events = r.act(&VoiceSignal::Bind { tag: 7, participant: 100 });
    assert_eq!(events, vec![msg(4, EventMessage::Connected(100))]);
    let events = r.act(&VoiceSignal::Tick { talking: vec![7] });
    assert_eq!(events, vec![msg(4, EventMessage::Speaking(100))]);
    let events = r.act(&VoiceSignal::Disconnect { participant: 100 });
    assert_eq!(events, vec![msg(4, EventMessage::Disconnected(100))]);
}
