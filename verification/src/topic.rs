//! The topic part of an envelope: a topic name travels as its UTF-8 bytes.
use vstd::prelude::*;
use vstd::utf8::*;

verus! {

/// The bytes that stand for a topic name on the wire.
pub open spec fn topic_bytes(topic: Seq<char>) -> Seq<u8> {
    encode_utf8(topic)
}

/// `String::from_utf8`: `Some` exactly when the bytes are valid UTF-8,
/// and then the string whose encoding is those bytes.
#[verifier::external_body]
fn string_from_utf8(bytes: Vec<u8>) -> (res: Option<String>)
    ensures
        res is Some <==> valid_utf8(bytes@),
        res matches Some(s) ==> s@ == decode_utf8(bytes@),
{
    String::from_utf8(bytes).ok()
}

/// The envelope frame that carries `topic`.
pub fn topic_frame(topic: &str) -> (frame: Vec<u8>)
    ensures
        frame@ == topic_bytes(topic@),
{
    let bytes = topic.as_bytes();
    let mut frame: Vec<u8> = Vec::new();
    let mut i: usize = 0;
    while i < bytes.len()
        invariant
            i <= bytes@.len(),
            bytes@ == topic_bytes(topic@),
            frame@ == bytes@.subrange(0, i as int),
        decreases bytes@.len() - i,
    {
        frame.push(bytes[i]);
        i = i + 1;
        assert(frame@ =~= bytes@.subrange(0, i as int));
    }
    assert(frame@ =~= bytes@);
    frame
}

/// Reads the topic name out of a received envelope frame; `None` when the
/// frame is not valid UTF-8.
pub fn decode_topic(envelope: Vec<u8>) -> (topic: Option<String>)
    ensures
        topic is Some <==> valid_utf8(envelope@),
        topic matches Some(t) ==> t@ == decode_utf8(envelope@),
{
    string_from_utf8(envelope)
}

/// A topic name read back from its own frame is the same name.
pub proof fn lemma_topic_round_trip(topic: Seq<char>)
    ensures
        topic_bytes(topic) == encode_utf8(topic),
        valid_utf8(topic_bytes(topic)),
        decode_utf8(topic_bytes(topic)) == topic,
{
    encode_utf8_valid_utf8(topic);
    encode_utf8_decode_utf8(topic);
}

} // verus!
