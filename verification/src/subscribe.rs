//! Receiving: the subscribing side reads an envelope frame, then a message
//! frame, and hands the message to the callback registered for the topic.
use vstd::prelude::*;
use vstd::utf8::*;
use crate::publish::{
    envelope_parts, lemma_publications_leave_as_messages, publication, publications, pump_run,
    wire_messages,
};
use crate::registry::Service;
use crate::topic::{decode_topic, lemma_topic_round_trip, topic_bytes};

verus! {

/// Where the subscribing side stands between two frames.
pub enum SubState {
    /// The next frame is an envelope naming a topic.
    AwaitEnvelope,
    /// An envelope for this topic came; the next frame is its message.
    AwaitMessage(String),
    /// An envelope was not UTF-8 text; the subscriber has stopped and
    /// handles no further frame.
    Stopped,
}

/// The subscribing side's state with the topic taken as characters.
pub enum SubStateView {
    AwaitEnvelope,
    AwaitMessage(Seq<char>),
    Stopped,
}

impl SubState {
    pub open spec fn view_state(&self) -> SubStateView {
        match self {
            SubState::AwaitEnvelope => SubStateView::AwaitEnvelope,
            SubState::AwaitMessage(t) => SubStateView::AwaitMessage(t@),
            SubState::Stopped => SubStateView::Stopped,
        }
    }
}

/// What the subscribing side does after a frame.
pub enum SubAction<'a, C> {
    /// An envelope for this topic was read.
    TopicReceived(String),
    /// Call this callback with this message.
    Deliver(&'a C, Vec<u8>),
    /// A message came for a topic that has no callback.
    NoCallback,
    /// The envelope frame is not UTF-8 text; the subscriber stops.
    BadEnvelope,
    /// The subscriber has stopped; the frame is not handled.
    Ignored,
}

/// An action with its topic, callback and message taken as values.
pub enum SubActionView<C> {
    TopicReceived(Seq<char>),
    Deliver(C, Seq<u8>),
    NoCallback,
    BadEnvelope,
    Ignored,
}

impl<'a, C> SubAction<'a, C> {
    pub open spec fn view_action(&self) -> SubActionView<C> {
        match self {
            SubAction::TopicReceived(t) => SubActionView::TopicReceived(t@),
            SubAction::Deliver(c, m) => SubActionView::Deliver(**c, m@),
            SubAction::NoCallback => SubActionView::NoCallback,
            SubAction::BadEnvelope => SubActionView::BadEnvelope,
            SubAction::Ignored => SubActionView::Ignored,
        }
    }
}

/// What a message for `topic` becomes, given the registered callbacks.
pub open spec fn delivery<C>(callbacks: Map<Seq<char>, C>, topic: Seq<char>, message: Seq<u8>) -> SubActionView<C> {
    if callbacks.dom().contains(topic) {
        SubActionView::Deliver(callbacks[topic], message)
    } else {
        SubActionView::NoCallback
    }
}

/// One step of the subscribing side on a received frame.
pub open spec fn sub_step<C>(callbacks: Map<Seq<char>, C>, state: SubStateView, frame: Seq<u8>) -> (
    SubStateView,
    SubActionView<C>,
) {
    match state {
        SubStateView::AwaitEnvelope => {
            if valid_utf8(frame) {
                (
                    SubStateView::AwaitMessage(decode_utf8(frame)),
                    SubActionView::TopicReceived(decode_utf8(frame)),
                )
            } else {
                (SubStateView::Stopped, SubActionView::BadEnvelope)
            }
        },
        SubStateView::AwaitMessage(topic) => (
            SubStateView::AwaitEnvelope,
            delivery(callbacks, topic, frame),
        ),
        SubStateView::Stopped => (SubStateView::Stopped, SubActionView::Ignored),
    }
}

/// The subscribing side run over a list of received frames.
pub open spec fn sub_run<C>(callbacks: Map<Seq<char>, C>, state: SubStateView, frames: Seq<Seq<u8>>) -> (
    SubStateView,
    Seq<SubActionView<C>>,
)
    decreases frames.len(),
{
    if frames.len() == 0 {
        (state, Seq::empty())
    } else {
        let (next, action) = sub_step(callbacks, state, frames[0]);
        let (last, rest) = sub_run(callbacks, next, frames.drop_first());
        (last, seq![action] + rest)
    }
}

impl<C> Service<C> {
    /// Takes the next received frame; returns the next state and what to do.
    pub fn on_sub_frame<'a>(&'a self, state: SubState, frame: Vec<u8>) -> (res: (
        SubState,
        SubAction<'a, C>,
    ))
        ensures
            (res.0.view_state(), res.1.view_action()) == sub_step(
                self.callbacks(),
                state.view_state(),
                frame@,
            ),
            state.view_state() matches SubStateView::AwaitMessage(t) ==> (self.callbacks().dom().contains(
                t,
            ) ==> res.1.view_action() == SubActionView::Deliver(self.callbacks()[t], frame@)),
    {
        match state {
            SubState::AwaitEnvelope => {
                match decode_topic(frame) {
                    Some(topic) => {
                        let shown = topic.clone();
                        (SubState::AwaitMessage(topic), SubAction::TopicReceived(shown))
                    },
                    None => (SubState::Stopped, SubAction::BadEnvelope),
                }
            },
            SubState::AwaitMessage(topic) => {
                match self.callback_for(&topic) {
                    Some(cb) => (SubState::AwaitEnvelope, SubAction::Deliver(cb, frame)),
                    None => (SubState::AwaitEnvelope, SubAction::NoCallback),
                }
            },
            SubState::Stopped => (SubState::Stopped, SubAction::Ignored),
        }
    }
}

/// What each frame does to the subscribing side, in terms of the frame:
/// an envelope that is UTF-8 text names the topic it decodes to (the bytes
/// of a topic name give back that name); one that is not stops the
/// subscriber; a message under a registered topic goes, unchanged, to that
/// topic's callback, and one under any other topic to none; a stopped
/// subscriber ignores every frame.
pub proof fn lemma_sub_step_cases<C>(
    callbacks: Map<Seq<char>, C>,
    topic: Seq<char>,
    frame: Seq<u8>,
)
    ensures
        valid_utf8(frame) ==> sub_step(callbacks, SubStateView::AwaitEnvelope, frame) == (
            SubStateView::AwaitMessage(decode_utf8(frame)),
            SubActionView::<C>::TopicReceived(decode_utf8(frame)),
        ),
        sub_step(callbacks, SubStateView::AwaitEnvelope, encode_utf8(topic)) == (
            SubStateView::AwaitMessage(topic),
            SubActionView::<C>::TopicReceived(topic),
        ),
        !valid_utf8(frame) ==> sub_step(callbacks, SubStateView::AwaitEnvelope, frame) == (
            SubStateView::Stopped,
            SubActionView::<C>::BadEnvelope,
        ),
        callbacks.dom().contains(topic) ==> sub_step(
            callbacks,
            SubStateView::AwaitMessage(topic),
            frame,
        ) == (SubStateView::AwaitEnvelope, SubActionView::Deliver(callbacks[topic], frame)),
        !callbacks.dom().contains(topic) ==> sub_step(
            callbacks,
            SubStateView::AwaitMessage(topic),
            frame,
        ) == (SubStateView::AwaitEnvelope, SubActionView::<C>::NoCallback),
        sub_step(callbacks, SubStateView::Stopped, frame) == (
            SubStateView::Stopped,
            SubActionView::<C>::Ignored,
        ),
{
    encode_utf8_valid_utf8(topic);
    encode_utf8_decode_utf8(topic);
}

/// Running the subscribing side over two lists of frames, one after the
/// other, is running it over their concatenation.
pub proof fn lemma_sub_run_append<C>(
    callbacks: Map<Seq<char>, C>,
    state: SubStateView,
    a: Seq<Seq<u8>>,
    b: Seq<Seq<u8>>,
)
    ensures
        sub_run(callbacks, state, a + b) == ({
            let (mid, out1) = sub_run(callbacks, state, a);
            let (last, out2) = sub_run(callbacks, mid, b);
            (last, out1 + out2)
        }),
    decreases a.len(),
{
    if a.len() == 0 {
        assert(a + b =~= b);
    } else {
        assert((a + b).drop_first() =~= a.drop_first() + b);
        lemma_sub_run_append(callbacks, sub_step(callbacks, state, a[0]).0, a.drop_first(), b);
        let (next, action) = sub_step(callbacks, state, a[0]);
        let (mid, out1) = sub_run(callbacks, next, a.drop_first());
        let (last, out2) = sub_run(callbacks, mid, b);
        assert(seq![action] + (out1 + out2) =~= (seq![action] + out1) + out2);
    }
}

/// Once an envelope that is not UTF-8 text has stopped the subscriber, it
/// stays stopped and delivers nothing, whatever frames follow.
pub proof fn lemma_stopped_delivers_nothing<C>(callbacks: Map<Seq<char>, C>, frames: Seq<Seq<u8>>)
    ensures
        sub_run(callbacks, SubStateView::Stopped, frames) == (
            SubStateView::Stopped,
            Seq::new(frames.len(), |i: int| SubActionView::<C>::Ignored),
        ),
    decreases frames.len(),
{
    if frames.len() > 0 {
        lemma_stopped_delivers_nothing(callbacks, frames.drop_first());
        let rest = Seq::new((frames.len() - 1) as nat, |i: int| SubActionView::<C>::Ignored);
        assert(seq![SubActionView::<C>::Ignored] + rest =~= Seq::new(
            frames.len(),
            |i: int| SubActionView::<C>::Ignored,
        ));
    }
}

/// An envelope that is not UTF-8 text stops the subscriber: no message
/// after it, in that frame list, reaches a callback.
pub proof fn lemma_bad_envelope_stops<C>(
    callbacks: Map<Seq<char>, C>,
    envelope: Seq<u8>,
    later: Seq<Seq<u8>>,
)
    requires
        !valid_utf8(envelope),
    ensures
        sub_run(callbacks, SubStateView::AwaitEnvelope, seq![envelope] + later) == (
            SubStateView::Stopped,
            seq![SubActionView::<C>::BadEnvelope] + Seq::new(
                later.len(),
                |i: int| SubActionView::<C>::Ignored,
            ),
        ),
{
    let frames = seq![envelope] + later;
    assert(frames[0] == envelope);
    assert(frames.drop_first() =~= later);
    lemma_stopped_delivers_nothing(callbacks, later);
}

/// What the subscribing side does with one publication.
pub open spec fn reception<C>(callbacks: Map<Seq<char>, C>, topic: Seq<char>, payload: Seq<u8>) -> Seq<
    SubActionView<C>,
> {
    seq![SubActionView::TopicReceived(topic), delivery(callbacks, topic, payload)]
}

/// What the subscribing side does with a list of publications, in order.
pub open spec fn receptions<C>(callbacks: Map<Seq<char>, C>, msgs: Seq<(Seq<char>, Seq<u8>)>) -> Seq<
    SubActionView<C>,
>
    decreases msgs.len(),
{
    if msgs.len() == 0 {
        Seq::empty()
    } else {
        receptions(callbacks, msgs.drop_last()) + reception(callbacks, msgs.last().0, msgs.last().1)
    }
}

/// A subscriber that reads the frames of a list of publications reads each
/// topic back as it was published and hands each payload, unchanged, to the
/// callback registered for its topic (or finds none), ending where it
/// started.
pub proof fn lemma_publications_are_delivered<C>(
    callbacks: Map<Seq<char>, C>,
    msgs: Seq<(Seq<char>, Seq<u8>)>,
)
    ensures
        sub_run(callbacks, SubStateView::AwaitEnvelope, publications(msgs)) == (
            SubStateView::AwaitEnvelope,
            receptions(callbacks, msgs),
        ),
    decreases msgs.len(),
{
    if msgs.len() > 0 {
        let last = msgs.last();
        let pubs = publication(last.0, last.1);
        lemma_publications_are_delivered(callbacks, msgs.drop_last());
        lemma_sub_run_append(
            callbacks,
            SubStateView::AwaitEnvelope,
            publications(msgs.drop_last()),
            pubs,
        );
        lemma_topic_round_trip(last.0);
        reveal_with_fuel(sub_run, 3);
        assert(pubs.drop_first().drop_first() =~= Seq::<Seq<u8>>::empty());
        assert(sub_run(callbacks, SubStateView::AwaitEnvelope, pubs).1 =~= reception(
            callbacks,
            last.0,
            last.1,
        ));
    }
}

/// The bytes of each part of a message, in order.
pub open spec fn wire_frames(parts: Seq<(Seq<u8>, bool)>) -> Seq<Seq<u8>> {
    parts.map_values(|p: (Seq<u8>, bool)| p.0)
}

/// The bytes of the two-part messages of a list of publications are the
/// publications' frames.
proof fn lemma_wire_frames_of_messages(msgs: Seq<(Seq<char>, Seq<u8>)>)
    ensures
        wire_frames(wire_messages(msgs)) == publications(msgs),
    decreases msgs.len(),
{
    if msgs.len() > 0 {
        lemma_wire_frames_of_messages(msgs.drop_last());
        let a = wire_messages(msgs.drop_last());
        let b = envelope_parts(topic_bytes(msgs.last().0), msgs.last().1);
        assert(wire_frames(a + b) =~= wire_frames(a) + wire_frames(b));
        assert(wire_frames(b) =~= publication(msgs.last().0, msgs.last().1));
    }
}

/// End to end: what services publish leaves their sending side as two-part
/// messages, and a subscriber that reads those parts in order hands each
/// payload to the callback registered for its topic.
pub proof fn lemma_published_messages_reach_callback<C>(
    callbacks: Map<Seq<char>, C>,
    msgs: Seq<(Seq<char>, Seq<u8>)>,
)
    ensures
        pump_run(None, publications(msgs)).0 is None,
        sub_run(
            callbacks,
            SubStateView::AwaitEnvelope,
            wire_frames(pump_run(None, publications(msgs)).1),
        ) == (SubStateView::AwaitEnvelope, receptions(callbacks, msgs)),
{
    lemma_publications_leave_as_messages(msgs);
    lemma_wire_frames_of_messages(msgs);
    lemma_publications_are_delivered(callbacks, msgs);
}

} // verus!
