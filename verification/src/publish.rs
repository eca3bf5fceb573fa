//! Publishing: a message leaves a service as two frames, its topic and then
//! its payload, and the sending side turns each such pair into one two-part
//! message on the wire.
use vstd::prelude::*;
use crate::registry::Service;
use crate::topic::{lemma_topic_round_trip, topic_bytes, topic_frame};
use vstd::utf8::encode_utf8;

verus! {

/// The frames that publishing `payload` under `topic` hands to the sender.
pub open spec fn publication(topic: Seq<char>, payload: Seq<u8>) -> Seq<Seq<u8>> {
    seq![topic_bytes(topic), payload]
}

/// The views of a list of frames.
pub open spec fn frame_views(frames: Seq<Vec<u8>>) -> Seq<Seq<u8>> {
    frames.map_values(|f: Vec<u8>| f@)
}

/// How many times `send_n` publishes for a requested count `n`.
pub open spec fn publish_count(n: i32) -> nat {
    if n > 0 {
        n as nat
    } else {
        0
    }
}

impl<C> Service<C> {
    /// The frames that publish `payload` under `topic`: the topic frame, then
    /// the payload.
    pub fn publish_msg(&self, topic: &str, payload: Vec<u8>) -> (frames: Vec<Vec<u8>>)
        ensures
            frame_views(frames@) == publication(topic@, payload@),
            frames@.len() == 2,
            frames@[0]@ == encode_utf8(topic@),
            frames@[1]@ == payload@,
    {
        proof {
            lemma_publication_frames(topic@, payload@);
        }
        let mut frames: Vec<Vec<u8>> = Vec::new();
        let ghost payload_view = payload@;
        frames.push(topic_frame(topic));
        frames.push(payload);
        assert(frame_views(frames@) =~= publication(topic@, payload_view));
        frames
    }
}

/// The frames of `n` publications of the same payload under `topic`, in
/// order; none when `n` is not positive.
pub fn send_n<C>(srv: &Service<C>, topic: &str, payload: &Vec<u8>, n: i32) -> (frames: Vec<
    Vec<u8>,
>)
    ensures
        frame_views(frames@) == publications(same_message(topic@, payload@, publish_count(n))),
        frames@.len() == (if n > 0 {
            2 * n
        } else {
            0
        }),
        forall|k: int|
            0 <= k < frames@.len() / 2 ==> #[trigger] frames@[2 * k]@ == encode_utf8(topic@)
                && frames@[2 * k + 1]@ == payload@,
{
    let mut frames: Vec<Vec<u8>> = Vec::new();
    let mut i: i32 = 0;
    while i < n
        invariant
            0 <= i,
            n > 0 ==> i <= n,
            n <= 0 ==> i == 0,
            frame_views(frames@) == publications(same_message(topic@, payload@, i as nat)),
        decreases n - i,
    {
        let copy = payload.clone();
        assert(copy@ =~= payload@);
        let mut one = srv.publish_msg(topic, copy);
        let ghost before = frames@;
        let ghost added = one@;
        frames.append(&mut one);
        assert(frames@ =~= before + added);
        i = i + 1;
        assert(same_message(topic@, payload@, i as nat).drop_last() =~= same_message(
            topic@,
            payload@,
            (i - 1) as nat,
        ));
        assert(frame_views(frames@) =~= frame_views(before) + publication(topic@, payload@));
    }
    assert(i as nat == publish_count(n));
    proof {
        lemma_publish_count(n);
        lemma_same_message_frames(topic@, payload@, publish_count(n));
        let views = frame_views(frames@);
        assert forall|k: int| 0 <= k < frames@.len() / 2 implies #[trigger] frames@[2 * k]@
            == encode_utf8(topic@) && frames@[2 * k + 1]@ == payload@ by {
            assert(views[2 * k] == frames@[2 * k]@);
            assert(views[2 * k + 1] == frames@[2 * k + 1]@);
        }
    }
    frames
}

/// A publication is two frames: the topic's UTF-8 bytes, then the payload
/// itself, unchanged.
pub proof fn lemma_publication_frames(topic: Seq<char>, payload: Seq<u8>)
    ensures
        publication(topic, payload).len() == 2,
        publication(topic, payload)[0] == encode_utf8(topic),
        publication(topic, payload)[1] == payload,
{
    lemma_topic_round_trip(topic);
}

/// A positive count publishes that many times; any other count, none.
pub proof fn lemma_publish_count(n: i32)
    ensures
        n > 0 ==> publish_count(n) == n,
        n <= 0 ==> publish_count(n) == 0,
{
}

/// `n` publications of one message are `2 * n` frames: at each even place
/// the topic's UTF-8 bytes, and right after it the payload, unchanged.
pub proof fn lemma_same_message_frames(topic: Seq<char>, payload: Seq<u8>, n: nat)
    ensures
        publications(same_message(topic, payload, n)).len() == 2 * n,
        forall|k: int|
            0 <= k < n ==> #[trigger] publications(same_message(topic, payload, n))[2 * k]
                == encode_utf8(topic) && publications(same_message(topic, payload, n))[2 * k + 1]
                == payload,
    decreases n,
{
    lemma_publication_frames(topic, payload);
    if n > 0 {
        lemma_same_message_frames(topic, payload, (n - 1) as nat);
        let msgs = same_message(topic, payload, n);
        assert(msgs.drop_last() =~= same_message(topic, payload, (n - 1) as nat));
        let prev = publications(same_message(topic, payload, (n - 1) as nat));
        let all = publications(msgs);
        assert(all == prev + publication(topic, payload));
        assert forall|k: int| 0 <= k < n implies #[trigger] all[2 * k] == encode_utf8(topic)
            && all[2 * k + 1] == payload by {
            if k < n - 1 {
                assert(all[2 * k] == prev[2 * k]);
                assert(all[2 * k + 1] == prev[2 * k + 1]);
            } else {
                assert(all[2 * k] == publication(topic, payload)[0]);
                assert(all[2 * k + 1] == publication(topic, payload)[1]);
            }
        }
    }
}

/// One part of an outgoing message; `more` says that another part of the
/// same message follows.
pub struct Part {
    pub bytes: Vec<u8>,
    pub more: bool,
}

impl Part {
    /// The bytes and the more-flag of the part.
    pub open spec fn view_pair(&self) -> (Seq<u8>, bool) {
        (self.bytes@, self.more)
    }
}

/// The views of a list of parts.
pub open spec fn part_views(parts: Seq<Part>) -> Seq<(Seq<u8>, bool)> {
    parts.map_values(|p: Part| p.view_pair())
}

/// The wire form of one publication: its topic part, flagged that the
/// payload follows, then the payload as the last part.
pub open spec fn envelope_parts(topic: Seq<u8>, payload: Seq<u8>) -> Seq<(Seq<u8>, bool)> {
    seq![(topic, true), (payload, false)]
}

/// One step of the sending side: a frame arrives from the publishing
/// channel; the first of a pair is held, the second completes a message.
pub open spec fn pump_step(held: Option<Seq<u8>>, frame: Seq<u8>) -> (Option<Seq<u8>>, Seq<
    (Seq<u8>, bool),
>) {
    match held {
        None => (Some(frame), Seq::empty()),
        Some(topic) => (None, envelope_parts(topic, frame)),
    }
}

/// The sending side run over a whole list of frames.
pub open spec fn pump_run(held: Option<Seq<u8>>, frames: Seq<Seq<u8>>) -> (Option<Seq<u8>>, Seq<
    (Seq<u8>, bool),
>)
    decreases frames.len(),
{
    if frames.len() == 0 {
        (held, Seq::empty())
    } else {
        let (next, out) = pump_step(held, frames[0]);
        let (last, rest) = pump_run(next, frames.drop_first());
        (last, out + rest)
    }
}

/// The sending side of a service: frames come in from the publishing
/// channel one at a time and go out as two-part messages.
pub struct PubPump {
    held: Option<Vec<u8>>,
}

impl PubPump {
    /// The frame waiting for its partner, if any.
    pub closed spec fn held_view(&self) -> Option<Seq<u8>> {
        match self.held {
            Some(f) => Some(f@),
            None => None,
        }
    }

    /// A pump that holds nothing.
    pub fn new() -> (pump: Self)
        ensures
            pump.held_view() is None,
    {
        PubPump { held: None }
    }

    /// Takes the next frame from the channel and returns the parts to send.
    pub fn on_frame(&mut self, frame: Vec<u8>) -> (parts: Vec<Part>)
        ensures
            (final(self).held_view(), part_views(parts@)) == pump_step(
                old(self).held_view(),
                frame@,
            ),
    {
        let mut parts: Vec<Part> = Vec::new();
        match self.held.take() {
            None => {
                self.held = Some(frame);
            },
            Some(topic) => {
                let ghost t = topic@;
                let ghost f = frame@;
                parts.push(Part { bytes: topic, more: true });
                parts.push(Part { bytes: frame, more: false });
                assert(part_views(parts@) =~= envelope_parts(t, f));
            },
        }
        proof {
            if old(self).held_view() is None {
                assert(part_views(parts@) =~= Seq::<(Seq<u8>, bool)>::empty());
            }
        }
        parts
    }
}

/// The sending side holds the first frame of a pair and sends nothing; on
/// the second it sends one two-part message: the held frame flagged that
/// more follows, then the new frame, unchanged, as the last part.
pub proof fn lemma_pump_step_pairs(held: Option<Seq<u8>>, frame: Seq<u8>)
    ensures
        held is None ==> pump_step(held, frame) == (Some(frame), Seq::<(Seq<u8>, bool)>::empty()),
        held matches Some(topic) ==> {
            &&& pump_step(held, frame).0 is None
            &&& pump_step(held, frame).1.len() == 2
            &&& pump_step(held, frame).1[0] == (topic, true)
            &&& pump_step(held, frame).1[1] == (frame, false)
        },
{
}

/// Running the sending side over two lists of frames, one after the other,
/// is running it over their concatenation.
pub proof fn lemma_pump_run_append(held: Option<Seq<u8>>, a: Seq<Seq<u8>>, b: Seq<Seq<u8>>)
    ensures
        pump_run(held, a + b) == ({
            let (mid, out1) = pump_run(held, a);
            let (last, out2) = pump_run(mid, b);
            (last, out1 + out2)
        }),
    decreases a.len(),
{
    if a.len() == 0 {
        assert(a + b =~= b);
    } else {
        assert((a + b).drop_first() =~= a.drop_first() + b);
        lemma_pump_run_append(pump_step(held, a[0]).0, a.drop_first(), b);
        let (next, out) = pump_step(held, a[0]);
        let (mid, out1) = pump_run(next, a.drop_first());
        let (last, out2) = pump_run(mid, b);
        assert(out + (out1 + out2) =~= (out + out1) + out2);
    }
}

/// The frames of a list of publications, one after the other; each entry
/// is a topic and a payload.
pub open spec fn publications(msgs: Seq<(Seq<char>, Seq<u8>)>) -> Seq<Seq<u8>>
    decreases msgs.len(),
{
    if msgs.len() == 0 {
        Seq::empty()
    } else {
        publications(msgs.drop_last()) + publication(msgs.last().0, msgs.last().1)
    }
}

/// The two-part messages that stand for a list of publications on the wire.
pub open spec fn wire_messages(msgs: Seq<(Seq<char>, Seq<u8>)>) -> Seq<(Seq<u8>, bool)>
    decreases msgs.len(),
{
    if msgs.len() == 0 {
        Seq::empty()
    } else {
        wire_messages(msgs.drop_last()) + envelope_parts(topic_bytes(msgs.last().0), msgs.last().1)
    }
}

/// `n` publications of one payload under one topic.
pub open spec fn same_message(topic: Seq<char>, payload: Seq<u8>, n: nat) -> Seq<(Seq<char>, Seq<u8>)> {
    Seq::new(n, |i: int| (topic, payload))
}

/// Whatever a service publishes leaves its sending side as one two-part
/// message per publication, in order: the topic part flagged that more
/// follows, then the payload as the last part; nothing is held back.
pub proof fn lemma_publications_leave_as_messages(msgs: Seq<(Seq<char>, Seq<u8>)>)
    ensures
        pump_run(None, publications(msgs)) == (None::<Seq<u8>>, wire_messages(msgs)),
    decreases msgs.len(),
{
    if msgs.len() > 0 {
        let last = msgs.last();
        let pubs = publication(last.0, last.1);
        lemma_publications_leave_as_messages(msgs.drop_last());
        lemma_pump_run_append(None, publications(msgs.drop_last()), pubs);
        reveal_with_fuel(pump_run, 3);
        assert(pubs.drop_first().drop_first() =~= Seq::<Seq<u8>>::empty());
        assert(pump_run(None, pubs).1 =~= envelope_parts(topic_bytes(last.0), last.1));
    }
}

} // verus!
