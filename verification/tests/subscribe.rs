use zmq_service::publish::{send_n, PubPump};
use zmq_service::registry::Service;
use zmq_service::subscribe::{SubAction, SubState};

fn service() -> Service<u32> {
    let mut s = Service::new(String::from("Service_1"));
    s.add_sub_callback(String::from("TestMsg3"), 3);
    s.add_sub_callback(String::from("TestMsg"), 1);
    s
}

#[test]
fn envelope_then_message_is_delivered_to_callback() {
    let s = service();
    let (state, action) = s.on_sub_frame(SubState::AwaitEnvelope, b"TestMsg3".to_vec());
    match action {
        SubAction::TopicReceived(t) => assert_eq!(t, "TestMsg3"),
        _ => panic!("expected the topic"),
    }
    let (state, action) = s.on_sub_frame(state, vec![4, 5]);
    match action {
        SubAction::Deliver(cb, m) => {
            assert_eq!(*cb, 3);
            assert_eq!(m, vec![4, 5]);
        }
        _ => panic!("expected a delivery"),
    }
    assert!(matches!(state, SubState::AwaitEnvelope));
}

#[test]
fn message_for_unregistered_topic_finds_no_callback() {
    let s = service();
    let (state, _) = s.on_sub_frame(SubState::AwaitEnvelope, b"TestMsg2".to_vec());
    let (state, action) = s.on_sub_frame(state, vec![1]);
    assert!(matches!(action, SubAction::NoCallback));
    assert!(matches!(state, SubState::AwaitEnvelope));
}

#[test]
fn invalid_envelope_is_reported() {
    let s = service();
    let (state, action) = s.on_sub_frame(SubState::AwaitEnvelope, vec![0xFF, 0xFE]);
    assert!(matches!(action, SubAction::BadEnvelope));
    assert!(matches!(state, SubState::Stopped));
}

#[test]
fn stopped_subscriber_handles_no_later_frame() {
    let s = service();
    let (state, _) = s.on_sub_frame(SubState::AwaitEnvelope, vec![0xC3]);
    let (state, action) = s.on_sub_frame(state, b"TestMsg3".to_vec());
    assert!(matches!(action, SubAction::Ignored));
    let (state, action) = s.on_sub_frame(state, vec![1, 2]);
    assert!(matches!(action, SubAction::Ignored));
    assert!(matches!(state, SubState::Stopped));
}

#[test]
fn service_receives_its_own_publications() {
    let s = service();
    let frames = send_n(&s, "TestMsg3", &vec![42], 2);
    let mut pump = PubPump::new();
    let mut state = SubState::AwaitEnvelope;
    let mut delivered = Vec::new();
    for frame in frames {
        for part in pump.on_frame(frame) {
            let (next, action) = s.on_sub_frame(state, part.bytes);
            state = next;
            if let SubAction::Deliver(cb, m) = action {
                delivered.push((*cb, m));
            }
        }
    }
    assert_eq!(delivered, vec![(3, vec![42]), (3, vec![42])]);
}

#[test]
fn message_of_a_longer_topic_reaches_the_service_but_no_callback() {
    // Subscribed to "TestMsg", the service also gets "TestMsg2" envelopes
    // from the broker (subscription filters match by prefix); it finds no
    // callback for them.
    let s = service();
    let filters = s.subscriptions();
    assert!(filters.iter().any(|f| b"TestMsg2".starts_with(f)));
    let frames = send_n(&s, "TestMsg2", &vec![1, 2, 3], 1);
    let (state, action) = s.on_sub_frame(SubState::AwaitEnvelope, frames[0].clone());
    match action {
        SubAction::TopicReceived(t) => assert_eq!(t, "TestMsg2"),
        _ => panic!("expected the topic"),
    }
    let (_, action) = s.on_sub_frame(state, frames[1].clone());
    assert!(matches!(action, SubAction::NoCallback));
}

#[test]
fn second_service_receives_first_services_publications() {
    let first = service();
    let mut second: Service<u32> = Service::new(String::from("Service_2"));
    second.add_sub_callback(String::from("TestMsg2"), 2);
    let frames = send_n(&first, "TestMsg2", &vec![8, 8], 5);
    let mut pump = PubPump::new();
    let mut state = SubState::AwaitEnvelope;
    let mut delivered = 0;
    for frame in frames {
        for part in pump.on_frame(frame) {
            let (next, action) = second.on_sub_frame(state, part.bytes);
            state = next;
            if let SubAction::Deliver(cb, m) = action {
                assert_eq!(*cb, 2);
                assert_eq!(m, vec![8, 8]);
                delivered += 1;
            }
        }
    }
    assert_eq!(delivered, 5);
}
