use greenscreen::codec::encode_event;
use greenscreen::server::QUEUE_CAPACITY;
use greenscreen::server::WebsocketServer;
use greenscreen::tracker::Receiver;

/// Drains every pending event of one subscription into its wire text.
fn drain(srv: &mut WebsocketServer, sub: u64) -> Vec<String> {
    let mut out = Vec::new();
    while let Some(e) = srv.pop_event(sub) {
        out.push(encode_event(&e));
    }
    out
}

#[test]
fn tracker_to_subscriber_scenario() {
    let room = 42;
    let mut srv = WebsocketServer::new();
    let mut tracker = Receiver::new(room);
    let sub = srv.registry.subscribe(room, QUEUE_CAPACITY);

    if let Some(m) = tracker.bind_source(7, 100) {
        srv.publish(m);
    }
    assert_eq!(drain(&mut srv, sub), vec!["{\"connected\":100}"]);

    for m in tracker.process_tick(&vec![7]) {
        srv.publish(m);
    }
    assert_eq!(drain(&mut srv, sub), vec!["{\"speaking\":100}"]);

    for m in tracker.process_tick(&vec![]) {
        srv.publish(m);
    }
    assert_eq!(drain(&mut srv, sub), vec!["{\"quiet\":100}"]);

    let m = tracker.disconnect(100);
    srv.publish(m);
    assert_eq!(drain(&mut srv, sub), vec!["{\"disconnected\":100}"]);
}

#[test]
fn late_subscriber_sees_only_later_events() {
    let room = 42;
    let mut srv = WebsocketServer::new();
    let mut tracker = Receiver::new(room);

    if let Some(m) = tracker.bind_source(7, 100) {
        srv.publish(m);
    }
    let sub = srv.registry.subscribe(room, QUEUE_CAPACITY);
    for m in tracker.process_tick(&vec![7]) {
        srv.publish(m);
    }
    assert_eq!(drain(&mut srv, sub), vec!["{\"speaking\":100}"]);
}
