use zmq_service::topic::{decode_topic, topic_frame};

#[test]
fn topic_frame_is_utf8_bytes() {
    assert_eq!(topic_frame("TestMsg3"), b"TestMsg3".to_vec());
    assert_eq!(topic_frame(""), Vec::<u8>::new());
    assert_eq!(topic_frame("é"), vec![0xC3, 0xA9]);
}

#[test]
fn decode_topic_reads_back_the_name() {
    assert_eq!(decode_topic(topic_frame("TestMsg2")), Some(String::from("TestMsg2")));
    assert_eq!(decode_topic(vec![0xE2, 0x82, 0xAC]), Some(String::from("€")));
}

#[test]
fn decode_topic_refuses_invalid_utf8() {
    assert_eq!(decode_topic(vec![0xFF, 0x41]), None);
    assert_eq!(decode_topic(vec![0xC3]), None);
}
