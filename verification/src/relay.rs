//! The request/reply relay: after each poll, the message waiting on each
//! readable side (frontend first) is moved, part by part, to the other side.
use vstd::prelude::*;

verus! {

/// One of the two sockets of the relay.
#[derive(PartialEq, Eq, Structural, Clone, Copy, Debug)]
pub enum Side {
    /// The socket clients send their requests to.
    Frontend,
    /// The socket workers take requests from.
    Backend,
}

impl Side {
    /// The side that receives what this side reads.
    pub open spec fn spec_peer(self) -> Side {
        match self {
            Side::Frontend => Side::Backend,
            Side::Backend => Side::Frontend,
        }
    }

    /// The side that receives what this side reads.
    pub fn peer(self) -> (other: Side)
        ensures
            other == self.spec_peer(),
            other != self,
            other.spec_peer() == self,
    {
        match self {
            Side::Frontend => Side::Backend,
            Side::Backend => Side::Frontend,
        }
    }
}

/// The sides whose pending messages are moved after a poll, in the order
/// they are served: the frontend first.
pub open spec fn drain_order(front_readable: bool, back_readable: bool) -> Seq<Side> {
    (if front_readable { seq![Side::Frontend] } else { Seq::empty() }) + (if back_readable {
        seq![Side::Backend]
    } else {
        Seq::empty()
    })
}

/// The sides to serve after a poll that found these sides readable.
pub fn sides_to_drain(front_readable: bool, back_readable: bool) -> (sides: Vec<Side>)
    ensures
        sides@ == drain_order(front_readable, back_readable),
{
    let mut sides: Vec<Side> = Vec::new();
    if front_readable {
        sides.push(Side::Frontend);
    }
    if back_readable {
        sides.push(Side::Backend);
    }
    assert(sides@ =~= drain_order(front_readable, back_readable));
    sides
}

/// What the relay learns from its sockets.
#[derive(PartialEq, Eq, Structural, Clone, Copy, Debug)]
pub enum RelayEvent {
    /// A poll came back with these sides readable.
    Polled { front_readable: bool, back_readable: bool },
    /// A part was read from the side being served; `more` says that the
    /// message has further parts.
    Part { more: bool },
}

/// A part to pass on: read from `from`, to be sent on `to`, flagged that
/// more parts follow when `send_more`.
#[derive(PartialEq, Eq, Structural, Clone, Copy, Debug)]
pub struct RelayedPart {
    pub from: Side,
    pub to: Side,
    pub send_more: bool,
}

/// One step of the relay.  `queue` holds the sides still to be served since
/// the last poll, the one being served first.  A poll only counts when the
/// queue is empty; a part is read from the side being served and goes to its
/// peer with its flag, and that side is done after a part with no more-flag.
pub open spec fn relay_step(queue: Seq<Side>, event: RelayEvent) -> (Seq<Side>, Option<RelayedPart>) {
    match event {
        RelayEvent::Polled { front_readable, back_readable } => {
            if queue.len() == 0 {
                (drain_order(front_readable, back_readable), None)
            } else {
                (queue, None)
            }
        },
        RelayEvent::Part { more } => {
            if queue.len() == 0 {
                (queue, None)
            } else {
                (
                    if more {
                        queue
                    } else {
                        queue.drop_first()
                    },
                    Some(RelayedPart { from: queue[0], to: queue[0].spec_peer(), send_more: more }),
                )
            }
        },
    }
}

/// After a poll the frontend is served first, then the backend, each only
/// when it was readable.
pub proof fn lemma_drain_order_cases()
    ensures
        drain_order(true, true) == seq![Side::Frontend, Side::Backend],
        drain_order(true, false) == seq![Side::Frontend],
        drain_order(false, true) == seq![Side::Backend],
        drain_order(false, false) == Seq::<Side>::empty(),
{
    assert(drain_order(true, true) =~= seq![Side::Frontend, Side::Backend]);
    assert(drain_order(true, false) =~= seq![Side::Frontend]);
    assert(drain_order(false, true) =~= seq![Side::Backend]);
    assert(drain_order(false, false) =~= Seq::<Side>::empty());
}

/// What each event does to the relay, in terms of the event: a part read
/// while a side is served goes to the other side with the part's own
/// more-flag, and the side stays served until a part without it; a part
/// with no side served passes nothing on; a poll while idle serves the
/// readable sides and a poll while serving changes nothing.
pub proof fn lemma_relay_step_cases(queue: Seq<Side>, more: bool, front: bool, back: bool)
    ensures
        queue.len() > 0 ==> relay_step(queue, RelayEvent::Part { more }) == (
            if more {
                queue
            } else {
                queue.subrange(1, queue.len() as int)
            },
            Some(
                RelayedPart {
                    from: queue[0],
                    to: if queue[0] == Side::Frontend {
                        Side::Backend
                    } else {
                        Side::Frontend
                    },
                    send_more: more,
                },
            ),
        ),
        queue.len() == 0 ==> relay_step(queue, RelayEvent::Part { more }) == (
            queue,
            None::<RelayedPart>,
        ),
        queue.len() == 0 ==> relay_step(
            queue,
            RelayEvent::Polled { front_readable: front, back_readable: back },
        ) == (drain_order(front, back), None::<RelayedPart>),
        queue.len() > 0 ==> relay_step(
            queue,
            RelayEvent::Polled { front_readable: front, back_readable: back },
        ) == (queue, None::<RelayedPart>),
{
}

/// The parts a step passes on: none or one.
pub open spec fn step_output(out: Option<RelayedPart>) -> Seq<RelayedPart> {
    match out {
        Some(p) => seq![p],
        None => Seq::empty(),
    }
}

/// The relay run over a list of events.
pub open spec fn relay_run(queue: Seq<Side>, events: Seq<RelayEvent>) -> (Seq<Side>, Seq<RelayedPart>)
    decreases events.len(),
{
    if events.len() == 0 {
        (queue, Seq::empty())
    } else {
        let (next, out) = relay_step(queue, events[0]);
        let (last, rest) = relay_run(next, events.drop_first());
        (last, step_output(out) + rest)
    }
}

/// The relay: which side it serves, and what it passes on.
pub struct Relay {
    queue: Vec<Side>,
}

impl Relay {
    /// The sides still to be served since the last poll.
    pub closed spec fn queue_view(&self) -> Seq<Side> {
        self.queue@
    }

    /// A relay that waits for its first poll.
    pub fn new() -> (relay: Self)
        ensures
            relay.queue_view() == Seq::<Side>::empty(),
    {
        Relay { queue: Vec::new() }
    }

    /// The side to read the next part from; `None` when the relay should
    /// poll.
    pub fn next_read(&self) -> (side: Option<Side>)
        ensures
            side == (if self.queue_view().len() == 0 {
                None
            } else {
                Some(self.queue_view()[0])
            }),
    {
        if self.queue.len() == 0 {
            None
        } else {
            Some(self.queue[0])
        }
    }

    /// Takes an event and returns the part to pass on, if any.
    pub fn on_event(&mut self, event: RelayEvent) -> (out: Option<RelayedPart>)
        ensures
            (final(self).queue_view(), out) == relay_step(old(self).queue_view(), event),
    {
        match event {
            RelayEvent::Polled { front_readable, back_readable } => {
                if self.queue.len() == 0 {
                    self.queue = sides_to_drain(front_readable, back_readable);
                }
                None
            },
            RelayEvent::Part { more } => {
                if self.queue.len() == 0 {
                    None
                } else {
                    let from = self.queue[0];
                    if !more {
                        self.queue.remove(0);
                        assert(self.queue@ =~= old(self).queue@.drop_first());
                    }
                    Some(RelayedPart { from, to: from.peer(), send_more: more })
                }
            },
        }
    }
}

/// The parts of one message, as the relay reads them: every part but the
/// last has the more-flag.
pub open spec fn message_events(flags: Seq<bool>) -> bool {
    &&& flags.len() > 0
    &&& !flags.last()
    &&& forall|i: int| 0 <= i < flags.len() - 1 ==> #[trigger] flags[i]
}

/// The part events that carry these flags.
pub open spec fn part_events(flags: Seq<bool>) -> Seq<RelayEvent> {
    flags.map_values(|more: bool| RelayEvent::Part { more })
}

/// Moving one message: a relay serving `queue[0]` passes each part of the
/// message on to the peer side with its own more-flag, and is done with that
/// side after the message's last part.
pub proof fn lemma_relay_keeps_message(queue: Seq<Side>, message: Seq<bool>)
    requires
        queue.len() > 0,
        message_events(message),
    ensures
        relay_run(queue, part_events(message)) == (
            queue.drop_first(),
            message.map_values(
                |more: bool| RelayedPart { from: queue[0], to: queue[0].spec_peer(), send_more: more },
            ),
        ),
    decreases message.len(),
{
    let events = part_events(message);
    let parts = message.map_values(
        |more: bool| RelayedPart { from: queue[0], to: queue[0].spec_peer(), send_more: more },
    );
    assert(events[0] == RelayEvent::Part { more: message[0] });
    let p0 = RelayedPart { from: queue[0], to: queue[0].spec_peer(), send_more: message[0] };
    assert(parts[0] == p0);
    if message.len() == 1 {
        assert(relay_step(queue, events[0]) == (queue.drop_first(), Some(p0)));
        assert(events.drop_first() =~= Seq::<RelayEvent>::empty());
        assert(!message[0]);
        assert(parts =~= seq![parts[0]]);
        assert(relay_run(queue.drop_first(), events.drop_first()) == (
            queue.drop_first(),
            Seq::<RelayedPart>::empty(),
        ));
        assert(relay_run(queue, events).1 =~= parts);
        assert(relay_run(queue, events).0 == queue.drop_first());
    } else {
        assert(message[0]);
        let tail = message.drop_first();
        assert(tail.last() == message.last());
        assert forall|i: int| 0 <= i < tail.len() - 1 implies #[trigger] tail[i] by {
            assert(tail[i] == message[i + 1]);
        }
        assert(events.drop_first() =~= part_events(tail));
        assert(relay_step(queue, events[0]) == (queue, Some(p0)));
        lemma_relay_keeps_message(queue, tail);
        let tail_parts = tail.map_values(
            |more: bool| RelayedPart { from: queue[0], to: queue[0].spec_peer(), send_more: more },
        );
        assert(seq![parts[0]] + tail_parts =~= parts);
        assert(relay_run(queue, events).1 == step_output(Some(p0)) + tail_parts);
        assert(relay_run(queue, events).1 =~= parts);
        assert(relay_run(queue, events).0 == queue.drop_first());
    }
}

/// What holds of all the parts a relay passes on, over any events, from any
/// queue: each goes to the peer of the side it was read from, and the first
/// is read from the side being served.
proof fn lemma_relay_run_shape(queue: Seq<Side>, events: Seq<RelayEvent>)
    ensures
        ({
            let sent = relay_run(queue, events).1;
            &&& forall|i: int| 0 <= i < sent.len() ==> #[trigger] sent[i].to == sent[i].from.spec_peer()
            &&& (queue.len() > 0 && sent.len() > 0 ==> sent[0].from == queue[0])
            &&& forall|i: int|
                0 <= i < sent.len() - 1 && #[trigger] sent[i].send_more ==> sent[i + 1].from
                    == sent[i].from
        }),
    decreases events.len(),
{
    if events.len() > 0 {
        let (next, out) = relay_step(queue, events[0]);
        lemma_relay_run_shape(next, events.drop_first());
        let rest = relay_run(next, events.drop_first()).1;
        let sent = relay_run(queue, events).1;
        assert(sent == step_output(out) + rest);
        match out {
            Some(p) => {
                assert(sent[0] == p);
                assert forall|i: int| 0 <= i < sent.len() implies #[trigger] sent[i].to
                    == sent[i].from.spec_peer() by {
                    if i > 0 {
                        assert(sent[i] == rest[i - 1]);
                    }
                }
                assert forall|i: int|
                    0 <= i < sent.len() - 1 && #[trigger] sent[i].send_more implies sent[i
                    + 1].from == sent[i].from by {
                    assert(sent[i + 1] == rest[i]);
                    if i > 0 {
                        assert(sent[i] == rest[i - 1]);
                    } else {
                        assert(next == queue);
                    }
                }
            },
            None => {
                assert(sent =~= rest);
                if queue.len() > 0 {
                    assert(next == queue);
                }
            },
        }
    }
}

/// Messages never interleave: over any events, whenever the relay passes on
/// a part flagged that more parts follow, the next part it passes on is read
/// from the same side and sent on the same side, so it is the next part of
/// the same message.
pub proof fn lemma_relayed_messages_do_not_interleave(queue: Seq<Side>, events: Seq<RelayEvent>)
    ensures
        ({
            let sent = relay_run(queue, events).1;
            forall|i: int|
                0 <= i < sent.len() - 1 && #[trigger] sent[i].send_more ==> sent[i + 1].from
                    == sent[i].from && sent[i + 1].to == sent[i].to
        }),
{
    lemma_relay_run_shape(queue, events);
    let sent = relay_run(queue, events).1;
    assert forall|i: int|
        0 <= i < sent.len() - 1 && #[trigger] sent[i].send_more implies sent[i + 1].from
            == sent[i].from && sent[i + 1].to == sent[i].to by {
        assert(sent[i + 1].to == sent[i + 1].from.spec_peer());
        assert(sent[i].to == sent[i].from.spec_peer());
    }
}

/// Running the relay over two lists of events, one after the other, is
/// running it over their concatenation.
pub proof fn lemma_relay_run_append(queue: Seq<Side>, a: Seq<RelayEvent>, b: Seq<RelayEvent>)
    ensures
        relay_run(queue, a + b) == ({
            let (mid, out1) = relay_run(queue, a);
            let (last, out2) = relay_run(mid, b);
            (last, out1 + out2)
        }),
    decreases a.len(),
{
    if a.len() == 0 {
        assert(a + b =~= b);
    } else {
        assert((a + b).drop_first() =~= a.drop_first() + b);
        assert((a + b)[0] == a[0]);
        lemma_relay_run_append(relay_step(queue, a[0]).0, a.drop_first(), b);
        let (next, out) = relay_step(queue, a[0]);
        let (mid, out1) = relay_run(next, a.drop_first());
        let (last, out2) = relay_run(mid, b);
        assert(step_output(out) + (out1 + out2) =~= (step_output(out) + out1) + out2);
    }
}

/// The message waiting on each side at a poll, as its parts' more-flags;
/// `None` for a side that was not readable.
pub type PollRound = (Option<Seq<bool>>, Option<Seq<bool>>);

/// Each message of a round is a whole message.
pub open spec fn round_well_formed(round: PollRound) -> bool {
    &&& (round.0 matches Some(m) ==> message_events(m))
    &&& (round.1 matches Some(m) ==> message_events(m))
}

/// The part events of a waiting message, if any.
pub open spec fn waiting_parts(message: Option<Seq<bool>>) -> Seq<RelayEvent> {
    match message {
        Some(m) => part_events(m),
        None => Seq::empty(),
    }
}

/// The events of a round: the poll, then the parts of the frontend's
/// message, then those of the backend's.
pub open spec fn round_events(round: PollRound) -> Seq<RelayEvent> {
    seq![RelayEvent::Polled { front_readable: round.0 is Some, back_readable: round.1 is Some }]
        + waiting_parts(round.0) + waiting_parts(round.1)
}

/// The parts passed on for a message waiting on `side`, if any.
pub open spec fn forwarded(side: Side, message: Option<Seq<bool>>) -> Seq<RelayedPart> {
    match message {
        Some(m) => m.map_values(
            |more: bool| RelayedPart { from: side, to: side.spec_peer(), send_more: more },
        ),
        None => Seq::empty(),
    }
}

/// What a round passes on: the frontend's message, then the backend's.
pub open spec fn round_forwarded(round: PollRound) -> Seq<RelayedPart> {
    forwarded(Side::Frontend, round.0) + forwarded(Side::Backend, round.1)
}

/// The events of a list of rounds, one after the other.
pub open spec fn rounds_events(rounds: Seq<PollRound>) -> Seq<RelayEvent>
    decreases rounds.len(),
{
    if rounds.len() == 0 {
        Seq::empty()
    } else {
        rounds_events(rounds.drop_last()) + round_events(rounds.last())
    }
}

/// What a list of rounds passes on, one after the other.
pub open spec fn rounds_forwarded(rounds: Seq<PollRound>) -> Seq<RelayedPart>
    decreases rounds.len(),
{
    if rounds.len() == 0 {
        Seq::empty()
    } else {
        rounds_forwarded(rounds.drop_last()) + round_forwarded(rounds.last())
    }
}

/// Serving `side` with its waiting message from a queue that starts with it.
proof fn lemma_serve_waiting(queue: Seq<Side>, side: Side, message: Option<Seq<bool>>)
    requires
        message matches Some(m) ==> message_events(m) && queue.len() > 0 && queue[0] == side,
    ensures
        relay_run(queue, waiting_parts(message)) == (
            if message is Some {
                queue.drop_first()
            } else {
                queue
            },
            forwarded(side, message),
        ),
{
    match message {
        Some(m) => {
            lemma_relay_keeps_message(queue, m);
        },
        None => {
            assert(waiting_parts(message) =~= Seq::<RelayEvent>::empty());
            assert(forwarded(side, message) =~= Seq::<RelayedPart>::empty());
        },
    }
}

/// One round: a relay that polls finds its readable sides, moves the
/// frontend's waiting message whole, then the backend's, and polls again.
pub proof fn lemma_round_forwards_all(round: PollRound)
    requires
        round_well_formed(round),
    ensures
        relay_run(Seq::empty(), round_events(round)) == (Seq::<Side>::empty(), round_forwarded(round)),
{
    let poll = seq![RelayEvent::Polled { front_readable: round.0 is Some, back_readable: round.1 is Some }];
    let front = waiting_parts(round.0);
    let back = waiting_parts(round.1);
    let queue = drain_order(round.0 is Some, round.1 is Some);
    assert(round_events(round) == poll + front + back);
    lemma_relay_run_append(Seq::empty(), poll + front, back);
    lemma_relay_run_append(Seq::empty(), poll, front);
    assert(poll[0] == RelayEvent::Polled { front_readable: round.0 is Some, back_readable: round.1 is Some });
    assert(poll.drop_first() =~= Seq::<RelayEvent>::empty());
    assert(relay_step(Seq::empty(), poll[0]) == (queue, None::<RelayedPart>));
    assert(relay_run(queue, poll.drop_first()) == (queue, Seq::<RelayedPart>::empty()));
    assert(step_output(None) + Seq::<RelayedPart>::empty() =~= Seq::<RelayedPart>::empty());
    assert(relay_run(Seq::empty(), poll) == (queue, Seq::<RelayedPart>::empty()));
    lemma_serve_waiting(queue, Side::Frontend, round.0);
    let after_front = if round.0 is Some { queue.drop_first() } else { queue };
    assert(after_front =~= drain_order(false, round.1 is Some));
    lemma_serve_waiting(after_front, Side::Backend, round.1);
    assert(Seq::<RelayedPart>::empty() + forwarded(Side::Frontend, round.0) =~= forwarded(
        Side::Frontend,
        round.0,
    ));
}

/// Over any list of poll rounds, every message waiting at a poll is
/// forwarded whole before the next poll, the frontend's before the
/// backend's, and the relay is back to polling after each round.
pub proof fn lemma_every_waiting_message_is_forwarded(rounds: Seq<PollRound>)
    requires
        forall|i: int| 0 <= i < rounds.len() ==> round_well_formed(#[trigger] rounds[i]),
    ensures
        relay_run(Seq::empty(), rounds_events(rounds)) == (
            Seq::<Side>::empty(),
            rounds_forwarded(rounds),
        ),
    decreases rounds.len(),
{
    if rounds.len() > 0 {
        let init = rounds.drop_last();
        assert forall|i: int| 0 <= i < init.len() implies round_well_formed(#[trigger] init[i]) by {
            assert(init[i] == rounds[i]);
        }
        lemma_every_waiting_message_is_forwarded(init);
        lemma_relay_run_append(Seq::empty(), rounds_events(init), round_events(rounds.last()));
        assert(round_well_formed(rounds[rounds.len() - 1]));
        lemma_round_forwards_all(rounds.last());
    }
}

} // verus!
