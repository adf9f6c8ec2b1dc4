//! What holds of the TCP handler over any number of packets.
use vstd::prelude::*;

use crate::addr::NetworkAddr;
use crate::handler::DataCall;
use crate::packet::PacketView;
use crate::sessions::{NetAddrPair, NumberedSessionView};
use crate::tcp::SessionView;
use crate::tcp_laws::PacketShape;
use crate::tcp_step::{Arrival, Outcome, Reading, TcpState};
use crate::tcp_tracker::TrackerView;

verus! {

/// A packet that arrives, the connection that is opened for it, if one is, and the calls of the data
/// handler.
pub struct Step<NetAddr: NetworkAddr> {
    pub arrival: Arrival<NetAddr>,
    pub fresh: SessionView<NetAddr>,
    pub own: Option<DataCall>,
    pub kept: Seq<DataCall>,
}

impl<NetAddr: NetworkAddr> Step<NetAddr> {
    pub open spec fn reading(self, state: TcpState<NetAddr>) -> Reading<NetAddr> {
        crate::tcp_step::reading(state, self.arrival, self.fresh)
    }

    pub open spec fn outcome(self, state: TcpState<NetAddr>) -> Outcome<NetAddr> {
        crate::tcp_step::outcome(self.arrival, self.reading(state), self.own, self.kept)
    }

    /// Whether the step can be taken in this state.
    pub open spec fn fits(self, state: TcpState<NetAddr>) -> bool {
        &&& crate::tcp_laws::valid_packet(self.arrival.packet)
        &&& self.fresh.is_fresh()
        &&& crate::tcp_step::calls_fit(self.reading(state), self.own, self.kept)
    }
}

/// The state after `steps`.
pub open spec fn state_after<NetAddr: NetworkAddr>(
    state: TcpState<NetAddr>,
    steps: Seq<Step<NetAddr>>,
) -> TcpState<NetAddr>
    decreases steps.len(),
{
    if steps.len() == 0 {
        state
    } else {
        steps.last().outcome(state_after(state, steps.drop_last())).state
    }
}

/// Whether `steps` can be taken one after the other, the first one in `state`.
pub open spec fn is_run<NetAddr: NetworkAddr>(
    state: TcpState<NetAddr>,
    steps: Seq<Step<NetAddr>>,
) -> bool
    decreases steps.len(),
{
    steps.len() > 0 ==> is_run(state, steps.drop_last()) && steps.last().fits(
        state_after(state, steps.drop_last()),
    )
}

/// The packets that the connection holds back.
pub open spec fn held_at<NetAddr: NetworkAddr>(
    state: TcpState<NetAddr>,
    key: NetAddrPair<NetAddr>,
) -> Seq<PacketView> {
    if state.sessions.contains_key(key) {
        crate::tcp_laws::held(state.sessions[key])
    } else {
        seq![]
    }
}

/// The packets of the connection that arrive.
pub open spec fn arrived_at<NetAddr: NetworkAddr>(
    steps: Seq<Step<NetAddr>>,
    key: NetAddrPair<NetAddr>,
) -> Seq<PacketView>
    decreases steps.len(),
{
    if steps.len() == 0 {
        seq![]
    } else {
        let earlier = arrived_at(steps.drop_last(), key);
        if steps.last().arrival.key() == key {
            earlier.push(steps.last().arrival.packet)
        } else {
            earlier
        }
    }
}

/// The packets that are given back when packets of the connection arrive.
pub open spec fn returned_at<NetAddr: NetworkAddr>(
    state: TcpState<NetAddr>,
    steps: Seq<Step<NetAddr>>,
    key: NetAddrPair<NetAddr>,
) -> Seq<PacketView>
    decreases steps.len(),
{
    if steps.len() == 0 {
        seq![]
    } else {
        let earlier = returned_at(state, steps.drop_last(), key);
        if steps.last().arrival.key() == key {
            let outcome = steps.last().outcome(state_after(state, steps.drop_last()));
            earlier + crate::tcp_laws::returned(outcome.verdicts)
        } else {
            earlier
        }
    }
}

/// Whether the connection holds packets back only while data before them is missing.
pub open spec fn session_waits_rightly<NetAddr>(session: NumberedSessionView<NetAddr>) -> bool {
    &&& crate::tcp_laws::only_later_waits(session.session.client)
    &&& crate::tcp_laws::only_later_waits(session.session.server)
}

/// Whether the state can have come about, and packets are held back only while data before them is
/// missing.
pub open spec fn waits_rightly<NetAddr: NetworkAddr>(state: TcpState<NetAddr>) -> bool {
    &&& crate::tcp_laws::valid_state(state)
    &&& forall|key| #[trigger]
        state.sessions.contains_key(key) ==> session_waits_rightly(state.sessions[key])
}

/// A packet that is held back comes later than the stream it belongs to.
proof fn lemma_kept_waits_rightly<NetAddr: NetworkAddr>(
    state: TcpState<NetAddr>,
    step: Step<NetAddr>,
)
    requires
        waits_rightly(state),
        step.fits(state),
        step.reading(state).keeps(),
    ensures
        crate::tcp_laws::valid_session(step.reading(state).kept()),
        session_waits_rightly(step.reading(state).kept()),
{
    let arrival = step.arrival;
    let reading = step.reading(state);
    crate::tcp_laws::lemma_reading(state, arrival, step.fresh);
    let segment = arrival.packet.segment;
    assert(!crate::tcp_step::opens(state, arrival));
    assert(state.sessions.contains_key(arrival.key()));
    let found = state.sessions[arrival.key()];
    assert(session_waits_rightly(found));
    let direction = reading.direction();
    let kept = TrackerView { queue: direction.queue.push(reading.packet), ..direction };
    let start = crate::tcp_tracker::start_of(segment);
    assert(direction == found.session.direction(reading.input.is_client));
    assert(direction.is_ahead(start));
    assert(crate::tcp_tracker::start_of(reading.packet.segment) == start) by {
        crate::tcp_laws::lemma_same_header(arrival.packet, reading.packet);
    }
    assert(crate::tcp_laws::only_later_waits(kept)) by {
        assert forall|i: int| 0 <= i < kept.queue.len() implies kept.is_ahead(
            crate::tcp_tracker::start_of((#[trigger] kept.queue[i]).segment),
        ) by {
            if i < direction.queue.len() {
                assert(kept.queue[i] == direction.queue[i]);
            }
        }
    }
    assert(kept.valid()) by {
        assert forall|i: int| 0 <= i < kept.queue.len() implies crate::tcp_tracker::is_segment(
            (#[trigger] kept.queue[i]).segment,
        ) && 0 < crate::tcp_tracker::data_of(kept.queue[i].segment).len()
            <= crate::tcp_tracker::TRACKER_BUFFER_LEN by {
            if i < direction.queue.len() {
                assert(kept.queue[i] == direction.queue[i]);
            }
        }
    }
}

/// A packet that leaves lets all others go that do not come later any more.
proof fn lemma_left_waits_rightly<NetAddr: NetworkAddr>(
    state: TcpState<NetAddr>,
    step: Step<NetAddr>,
)
    requires
        waits_rightly(state),
        step.fits(state),
        !step.reading(state).keeps(),
        !step.reading(state).settled(step.own).removes,
    ensures
        ({
            let left = crate::tcp_step::left_session(step.reading(state), step.own, step.kept);
            crate::tcp_laws::valid_session(left) && session_waits_rightly(left)
        }),
{
    let reading = step.reading(state);
    crate::tcp_laws::lemma_reading(state, step.arrival, step.fresh);
    crate::tcp_laws::lemma_settled(reading, step.own);
    crate::tcp_laws::lemma_let_go(
        crate::tcp_step::settled_direction(reading, step.own),
        step.kept,
        reading.input.is_client,
        reading.session.session_id,
    );
    let other = reading.session.session.direction(!reading.input.is_client);
    assert(crate::tcp_laws::only_later_waits(other)) by {
        if !crate::tcp_step::opens(state, step.arrival) {
            assert(session_waits_rightly(state.sessions[step.arrival.key()]));
        }
    }
}

/// A handler that follows no connection holds nothing back.
pub proof fn law_nothing_waits_at_first<NetAddr: NetworkAddr>(state: TcpState<NetAddr>)
    requires
        state.sessions == Map::<NetAddrPair<NetAddr>, NumberedSessionView<NetAddr>>::empty(),
    ensures
        waits_rightly(state),
{
}

/// A packet is held back only while data before it is missing, and every packet leaves it so: where
/// the gap before a packet has been filled, the packet is given back at once.
pub proof fn law_only_later_packets_wait<NetAddr: NetworkAddr>(
    state: TcpState<NetAddr>,
    step: Step<NetAddr>,
)
    requires
        waits_rightly(state),
        step.fits(state),
    ensures
        waits_rightly(step.outcome(state).state),
{
    let after = step.outcome(state).state;
    let key = step.arrival.key();
    if step.reading(state).keeps() {
        lemma_kept_waits_rightly(state, step);
    } else if !step.reading(state).settled(step.own).removes {
        lemma_left_waits_rightly(state, step);
    }
    assert forall|k: NetAddrPair<NetAddr>| #[trigger] after.sessions.contains_key(k) implies {
        &&& crate::tcp_laws::valid_session(after.sessions[k])
        &&& session_waits_rightly(after.sessions[k])
    } by {
        if k != key {
            assert(state.sessions.contains_key(k));
            assert(after.sessions[k] == state.sessions[k]);
        }
    }
}

/// When a connection ends, or another takes its place, everything that it held back is given back.
pub proof fn law_end_gives_everything_back<NetAddr: NetworkAddr>(
    state: TcpState<NetAddr>,
    step: Step<NetAddr>,
    packet: PacketShape,
)
    requires
        crate::tcp_laws::valid_state(state),
        step.fits(state),
        crate::tcp_step::reopens(state, step.arrival) || (!step.reading(state).keeps()
            && step.reading(state).settled(step.own).removes),
    ensures
        crate::tcp_laws::bag(crate::tcp_laws::held_for(state, step.arrival)).count(packet)
            <= crate::tcp_laws::bag(
            crate::tcp_laws::returned(step.outcome(state).verdicts),
        ).count(packet),
{
    let reading = step.reading(state);
    let outcome = step.outcome(state);
    let before = crate::tcp_laws::held_for(state, step.arrival);
    let after = crate::tcp_laws::held_for(outcome.state, step.arrival);
    let returned = crate::tcp_laws::returned(outcome.verdicts);
    crate::tcp_laws::lemma_reading(state, step.arrival, step.fresh);
    if crate::tcp_step::reopens(state, step.arrival) {
        let found = state.sessions[step.arrival.key()];
        let leaving = crate::tcp_step::leaving_verdicts(reading, step.own, step.kept);
        assert(!reading.keeps()) by {
            assert(reading.direction() == TrackerView::fresh());
        }
        crate::tcp_laws::lemma_returned_drained(found);
        crate::tcp_laws::lemma_returned_join(reading.verdicts, leaving);
        crate::tcp_laws::lemma_bag_join(before, crate::tcp_laws::returned(leaving));
    } else {
        crate::tcp_laws::law_no_packet_is_lost(
            state,
            step.arrival,
            step.fresh,
            step.own,
            step.kept,
        );
        assert(after =~= seq![]);
        assert(after + returned =~= returned);
        crate::tcp_laws::lemma_bag_join(before, seq![step.arrival.packet]);
    }
}

/// What a step does to the packets of a connection, be it that of the packet or another.
proof fn lemma_step_conserves<NetAddr: NetworkAddr>(
    state: TcpState<NetAddr>,
    step: Step<NetAddr>,
    key: NetAddrPair<NetAddr>,
)
    requires
        crate::tcp_laws::valid_state(state),
        step.fits(state),
    ensures
        ({
            let outcome = step.outcome(state);
            let before = crate::tcp_laws::bag(held_at(state, key));
            let after = crate::tcp_laws::bag(held_at(outcome.state, key));
            if step.arrival.key() == key {
                before.add(crate::tcp_laws::bag(seq![step.arrival.packet])) == after.add(
                    crate::tcp_laws::bag(crate::tcp_laws::returned(outcome.verdicts)),
                )
            } else {
                before == after
            }
        }),
{
    let outcome = step.outcome(state);
    let other = step.arrival.key();
    crate::tcp_laws::law_no_packet_is_lost(
        state,
        step.arrival,
        step.fresh,
        step.own,
        step.kept,
    );
    if other == key {
        crate::tcp_laws::lemma_bag_join(held_at(state, key), seq![step.arrival.packet]);
        crate::tcp_laws::lemma_bag_join(
            held_at(outcome.state, key),
            crate::tcp_laws::returned(outcome.verdicts),
        );
    } else {
        let left = outcome.state.sessions.remove(other);
        assert(left.contains_key(key) == state.sessions.contains_key(key));
        assert(left.contains_key(key) == outcome.state.sessions.contains_key(key));
        if left.contains_key(key) {
            assert(left[key] == state.sessions[key]);
            assert(left[key] == outcome.state.sessions[key]);
        }
    }
}

/// Over any number of packets, what a connection held back at first and what arrives for it is what
/// it holds back at last and what has been given back, each packet once and with the headers and the
/// length that it had. At every point packets are held back only while data before them is missing.
pub proof fn law_every_packet_comes_back<NetAddr: NetworkAddr>(
    state: TcpState<NetAddr>,
    steps: Seq<Step<NetAddr>>,
    key: NetAddrPair<NetAddr>,
)
    requires
        waits_rightly(state),
        is_run(state, steps),
    ensures
        crate::tcp_laws::bag(held_at(state, key) + arrived_at(steps, key))
            == crate::tcp_laws::bag(
            held_at(state_after(state, steps), key) + returned_at(state, steps, key),
        ),
        waits_rightly(state_after(state, steps)),
    decreases steps.len(),
{
    if steps.len() > 0 {
        let earlier = steps.drop_last();
        let step = steps.last();
        let middle = state_after(state, earlier);
        let outcome = step.outcome(middle);
        law_every_packet_comes_back(state, earlier, key);
        law_only_later_packets_wait(middle, step);
        lemma_step_conserves(middle, step, key);
        let first = held_at(state, key);
        let arrived = arrived_at(earlier, key);
        let given = returned_at(state, earlier, key);
        let held = held_at(middle, key);
        let after = held_at(outcome.state, key);
        if step.arrival.key() == key {
            let more = crate::tcp_laws::returned(outcome.verdicts);
            lemma_one_more(first, arrived, held, given, step.arrival.packet, after, more);
        } else {
            crate::tcp_laws::lemma_bag_join(held, given);
            crate::tcp_laws::lemma_bag_join(after, given);
        }
    }
}

/// One more packet arrives, and others are given back.
proof fn lemma_one_more(
    first: Seq<PacketView>,
    arrived: Seq<PacketView>,
    held: Seq<PacketView>,
    given: Seq<PacketView>,
    packet: PacketView,
    after: Seq<PacketView>,
    more: Seq<PacketView>,
)
    requires
        crate::tcp_laws::bag(first + arrived) == crate::tcp_laws::bag(held + given),
        crate::tcp_laws::bag(held).add(crate::tcp_laws::bag(seq![packet]))
            == crate::tcp_laws::bag(after).add(crate::tcp_laws::bag(more)),
    ensures
        crate::tcp_laws::bag(first + arrived.push(packet)) == crate::tcp_laws::bag(
            after + (given + more),
        ),
{
    assert(first + arrived.push(packet) =~= (first + arrived) + seq![packet]);
    crate::tcp_laws::lemma_bag_join(first + arrived, seq![packet]);
    crate::tcp_laws::lemma_bag_join(held, given);
    crate::tcp_laws::lemma_bag_join(given, more);
    crate::tcp_laws::lemma_bag_join(after, given + more);
    let one = crate::tcp_laws::bag(seq![packet]);
    let a = crate::tcp_laws::bag(held);
    let b = crate::tcp_laws::bag(after);
    let c = crate::tcp_laws::bag(more);
    assert forall|x: PacketShape| #[trigger] a.count(x) + one.count(x) == b.count(x) + c.count(
        x,
    ) by {
        assert(a.add(one).count(x) == b.add(c).count(x));
    }
    assert(crate::tcp_laws::bag(first + arrived.push(packet)) =~= crate::tcp_laws::bag(
        after + (given + more),
    ));
}

/// A packet that arrives once is held back or has been given back, once and not both.
pub proof fn law_packet_comes_back_once<NetAddr: NetworkAddr>(
    state: TcpState<NetAddr>,
    steps: Seq<Step<NetAddr>>,
    key: NetAddrPair<NetAddr>,
    packet: PacketShape,
)
    requires
        waits_rightly(state),
        is_run(state, steps),
        crate::tcp_laws::bag(held_at(state, key) + arrived_at(steps, key)).count(packet) == 1,
    ensures
        crate::tcp_laws::bag(held_at(state_after(state, steps), key)).count(packet)
            + crate::tcp_laws::bag(returned_at(state, steps, key)).count(packet) == 1,
{
    law_every_packet_comes_back(state, steps, key);
    crate::tcp_laws::lemma_bag_join(
        held_at(state_after(state, steps), key),
        returned_at(state, steps, key),
    );
}

} // verus!
