use zmq_service::relay::{sides_to_drain, Relay, RelayEvent, RelayedPart, Side};

#[test]
fn peer_swaps_sides() {
    assert_eq!(Side::Frontend.peer(), Side::Backend);
    assert_eq!(Side::Backend.peer(), Side::Frontend);
}

#[test]
fn drain_order_serves_frontend_first() {
    assert_eq!(sides_to_drain(true, true), vec![Side::Frontend, Side::Backend]);
    assert_eq!(sides_to_drain(false, true), vec![Side::Backend]);
    assert_eq!(sides_to_drain(true, false), vec![Side::Frontend]);
    assert!(sides_to_drain(false, false).is_empty());
}

#[test]
fn new_relay_polls_first() {
    let relay = Relay::new();
    assert_eq!(relay.next_read(), None);
}

#[test]
fn part_without_a_poll_is_not_passed_on() {
    let mut relay = Relay::new();
    assert_eq!(relay.on_event(RelayEvent::Part { more: false }), None);
    assert_eq!(relay.next_read(), None);
}

#[test]
fn poll_with_nothing_readable_keeps_polling() {
    let mut relay = Relay::new();
    assert_eq!(
        relay.on_event(RelayEvent::Polled { front_readable: false, back_readable: false }),
        None
    );
    assert_eq!(relay.next_read(), None);
}

#[test]
fn both_sides_drained_frontend_first_messages_whole() {
    let mut relay = Relay::new();
    relay.on_event(RelayEvent::Polled { front_readable: true, back_readable: true });
    let mut sent = Vec::new();
    // a three-part request from the frontend, then a two-part reply from the backend
    for more in [true, true, false, true, false] {
        let from = relay.next_read().unwrap();
        let part = relay.on_event(RelayEvent::Part { more }).unwrap();
        assert_eq!(part.from, from);
        sent.push(part);
    }
    assert_eq!(relay.next_read(), None);
    let f = |send_more| RelayedPart { from: Side::Frontend, to: Side::Backend, send_more };
    let b = |send_more| RelayedPart { from: Side::Backend, to: Side::Frontend, send_more };
    assert_eq!(sent, vec![f(true), f(true), f(false), b(true), b(false)]);
}

#[test]
fn poll_while_serving_changes_nothing() {
    let mut relay = Relay::new();
    relay.on_event(RelayEvent::Polled { front_readable: false, back_readable: true });
    relay.on_event(RelayEvent::Part { more: true });
    relay.on_event(RelayEvent::Polled { front_readable: true, back_readable: false });
    assert_eq!(relay.next_read(), Some(Side::Backend));
    assert_eq!(
        relay.on_event(RelayEvent::Part { more: false }),
        Some(RelayedPart { from: Side::Backend, to: Side::Frontend, send_more: false })
    );
    assert_eq!(relay.next_read(), None);
}
