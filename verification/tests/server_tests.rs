use greenscreen::events::EventMessage;
use greenscreen::events::VoiceMessage;
use greenscreen::server::QUEUE_CAPACITY;
use greenscreen::server::WebsocketServer;

fn msg(guild: u64, event: EventMessage) -> VoiceMessage {
    VoiceMessage { guild, event }
}

#[test]
fn fanout_reaches_every_subscriber_of_the_room() {
    let mut srv = WebsocketServer::new();
    let s1 = srv.registry.subscribe(42, QUEUE_CAPACITY);
    let s2 = srv.registry.subscribe(42, QUEUE_CAPACITY);
    srv.publish(msg(42, EventMessage::Speaking(100)));
    assert_eq!(srv.pop_event(s1), Some(EventMessage::Speaking(100)));
    assert_eq!(srv.pop_event(s2), Some(EventMessage::Speaking(100)));
    assert_eq!(srv.pop_event(s1), None);
    assert_eq!(srv.pop_event(s2), None);
}

#[test]
fn publish_is_isolated_to_its_room() {
    let mut srv = WebsocketServer::new();
    let s1 = srv.registry.subscribe(42, QUEUE_CAPACITY);
    let s2 = srv.registry.subscribe(43, QUEUE_CAPACITY);
    srv.publish(msg(42, EventMessage::Connected(100)));
    assert_eq!(srv.pop_event(s2), None);
    assert_eq!(srv.pop_event(s1), Some(EventMessage::Connected(100)));
}

#[test]
fn closed_subscriber_is_evicted_and_others_still_receive() {
    let mut srv = WebsocketServer::new();
    let s1 = srv.registry.subscribe(42, QUEUE_CAPACITY);
    let s2 = srv.registry.subscribe(42, QUEUE_CAPACITY);
    srv.registry.close(s1);
    srv.publish(msg(42, EventMessage::Speaking(100)));
    assert_eq!(srv.registry.subs.len(), 1);
    assert_eq!(srv.pop_event(s1), None);
    assert_eq!(srv.pop_event(s2), Some(EventMessage::Speaking(100)));
}

#[test]
fn full_queue_subscriber_is_evicted_on_next_publish() {
    let mut srv = WebsocketServer::new();
    let s1 = srv.registry.subscribe(42, 1);
    let s2 = srv.registry.subscribe(42, QUEUE_CAPACITY);
    srv.publish(msg(42, EventMessage::Speaking(100)));
    srv.publish(msg(42, EventMessage::Quiet(100)));
    // s1's queue of one filled up; the second publish evicted it
    assert_eq!(srv.registry.subs.len(), 1);
    assert_eq!(srv.pop_event(s1), None);
    assert_eq!(srv.pop_event(s2), Some(EventMessage::Speaking(100)));
    assert_eq!(srv.pop_event(s2), Some(EventMessage::Quiet(100)));
}

#[test]
fn events_come_out_in_publish_order() {
    let mut srv = WebsocketServer::new();
    let s1 = srv.registry.subscribe(42, QUEUE_CAPACITY);
    srv.publish(msg(42, EventMessage::Connected(100)));
    srv.publish(msg(42, EventMessage::Speaking(100)));
    srv.publish(msg(42, EventMessage::Quiet(100)));
    assert_eq!(srv.pop_event(s1), Some(EventMessage::Connected(100)));
    assert_eq!(srv.pop_event(s1), Some(EventMessage::Speaking(100)));
    assert_eq!(srv.pop_event(s1), Some(EventMessage::Quiet(100)));
    assert_eq!(srv.pop_event(s1), None);
}

#[test]
fn publish_to_room_without_subscribers_is_dropped() {
    let mut srv = WebsocketServer::new();
    let s1 = srv.registry.subscribe(42, QUEUE_CAPACITY);
    srv.publish(msg(7, EventMessage::Connected(1)));
    assert_eq!(srv.pop_event(s1), None);
}

#[test]
fn heartbeat_reaches_a_live_subscriber() {
    let mut srv = WebsocketServer::new();
    let s1 = srv.registry.subscribe(42, QUEUE_CAPACITY);
    assert!(srv.enqueue_heartbeat(s1));
    assert_eq!(srv.pop_event(s1), Some(EventMessage::Heartbeat));
}

#[test]
fn heartbeat_fails_for_closed_or_gone_subscriber() {
    let mut srv = WebsocketServer::new();
    let s1 = srv.registry.subscribe(42, QUEUE_CAPACITY);
    srv.registry.close(s1);
    assert!(!srv.enqueue_heartbeat(s1));
    srv.registry.unsubscribe(s1);
    assert!(!srv.enqueue_heartbeat(s1));
}

#[test]
fn heartbeat_fails_on_full_queue() {
    let mut srv = WebsocketServer::new();
    let s1 = srv.registry.subscribe(42, 1);
    assert!(srv.enqueue_heartbeat(s1));
    assert!(!srv.enqueue_heartbeat(s1));
}

#[test]
fn unsubscribe_is_idempotent_and_keeps_the_room() {
    let mut srv = WebsocketServer::new();
    let s1 = srv.registry.subscribe(42, QUEUE_CAPACITY);
    srv.registry.unsubscribe(s1);
    srv.registry.unsubscribe(s1);
    assert_eq!(srv.registry.subs.len(), 0);
    // the room's fan-out point is retained
    assert_eq!(srv.registry.rooms, vec![42]);
}

#[test]
fn get_creates_a_room_entry_once() {
    let mut srv = WebsocketServer::new();
    srv.registry.get(5);
    srv.registry.get(5);
    srv.registry.get(6);
    assert_eq!(srv.registry.rooms, vec![5, 6]);
}

#[test]
fn handles_are_never_reused() {
    let mut srv = WebsocketServer::new();
    let s1 = srv.registry.subscribe(42, QUEUE_CAPACITY);
    srv.registry.unsubscribe(s1);
    let s2 = srv.registry.subscribe(42, QUEUE_CAPACITY);
    assert_ne!(s1, s2);
}

#[test]
fn handle_header_accepts_a_decimal_room() {
    assert_eq!(WebsocketServer::handle_header("/42"), Some(42));
    assert_eq!(WebsocketServer::handle_header("42"), Some(42));
    assert_eq!(WebsocketServer::handle_header("//42"), Some(42));
    assert_eq!(WebsocketServer::handle_header("/0042"), Some(42));
    assert_eq!(
        WebsocketServer::handle_header("/18446744073709551615"),
        Some(u64::MAX)
    );
}

#[test]
fn handle_header_rejects_malformed_selectors() {
    assert_eq!(WebsocketServer::handle_header(""), None);
    assert_eq!(WebsocketServer::handle_header("/"), None);
    assert_eq!(WebsocketServer::handle_header("/abc"), None);
    assert_eq!(WebsocketServer::handle_header("/4a2"), None);
    assert_eq!(WebsocketServer::handle_header("/42/7"), None);
    assert_eq!(WebsocketServer::handle_header("/0"), None);
    assert_eq!(WebsocketServer::handle_header("/18446744073709551616"), None);
    assert_eq!(WebsocketServer::handle_header("/-42"), None);
}
