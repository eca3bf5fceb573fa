use zmq_service::publish::{send_n, PubPump};
use zmq_service::registry::Service;

fn service() -> Service<u32> {
    Service::new(String::from("Service_1"))
}

#[test]
fn publish_msg_gives_topic_then_payload() {
    let frames = service().publish_msg("TestMsg3", vec![10, 18, 49]);
    assert_eq!(frames, vec![b"TestMsg3".to_vec(), vec![10, 18, 49]]);
}

#[test]
fn publish_msg_with_empty_payload() {
    let frames = service().publish_msg("TestMsg", Vec::new());
    assert_eq!(frames, vec![b"TestMsg".to_vec(), Vec::new()]);
}

#[test]
fn send_n_publishes_n_times() {
    let frames = send_n(&service(), "TestMsg2", &vec![1, 2], 5);
    assert_eq!(frames.len(), 10);
    for pair in frames.chunks(2) {
        assert_eq!(pair[0], b"TestMsg2".to_vec());
        assert_eq!(pair[1], vec![1, 2]);
    }
}

#[test]
fn send_n_once() {
    let frames = send_n(&service(), "TestMsg3", &vec![7], 1);
    assert_eq!(frames, vec![b"TestMsg3".to_vec(), vec![7]]);
}

#[test]
fn send_n_zero_or_negative_publishes_nothing() {
    assert!(send_n(&service(), "TestMsg", &vec![1], 0).is_empty());
    assert!(send_n(&service(), "TestMsg", &vec![1], -3).is_empty());
}

#[test]
fn pump_pairs_frames_into_two_part_messages() {
    let mut pump = PubPump::new();
    let first = pump.on_frame(b"TestMsg3".to_vec());
    assert!(first.is_empty());
    let second = pump.on_frame(vec![1, 2, 3]);
    assert_eq!(second.len(), 2);
    assert_eq!(second[0].bytes, b"TestMsg3".to_vec());
    assert!(second[0].more);
    assert_eq!(second[1].bytes, vec![1, 2, 3]);
    assert!(!second[1].more);
    assert!(pump.on_frame(b"TestMsg".to_vec()).is_empty());
}

#[test]
fn pump_sends_what_send_n_published() {
    let frames = send_n(&service(), "TestMsg2", &vec![9], 3);
    let mut pump = PubPump::new();
    let mut sent = Vec::new();
    for frame in frames {
        for part in pump.on_frame(frame) {
            sent.push((part.bytes, part.more));
        }
    }
    assert_eq!(sent.len(), 6);
    for pair in sent.chunks(2) {
        assert_eq!(pair[0], (b"TestMsg2".to_vec(), true));
        assert_eq!(pair[1], (vec![9], false));
    }
}
