//! What comes of a packet beside its data: the verdicts on it and on those that waited, and what
//! the spy is shown.
use vstd::prelude::*;

use crate::addr::{NetworkAddr, TcpAddr};
use crate::handler::{DataCall, TransportEvent};
use crate::packet::{InterceptVerdict, PacketView, VerdictView};
use crate::sessions::NumberedSessionView;
use crate::tcp_history::Step;
use crate::tcp_step::{Reading, TcpState};
use crate::tcp_tracker::TrackerView;

verus! {

/// What a connection that ends shows of the packets that waited.
proof fn lemma_drained<NetAddr>(session: NumberedSessionView<NetAddr>, i: int)
    requires
        0 <= i < session.session.client.queue.len() + session.session.server.queue.len(),
    ensures
        ({
            let waiting = session.session.client.queue + session.session.server.queue;
            &&& crate::tcp_step::drained_events(session).len() == waiting.len()
            &&& crate::tcp_step::drained_verdicts(session).len() == waiting.len()
            &&& crate::tcp_step::drained_verdicts(session)[i] == VerdictView::Drop(waiting[i])
            &&& crate::tcp_step::drained_events(session)[i] == (TransportEvent::After {
                    net_header: waiting[i].net_header,
                    transport_header: waiting[i].segment.take(waiting[i].segment[12] / 16 * 4),
                    is_client: i < session.session.client.queue.len(),
                    data: waiting[i].segment.skip(waiting[i].segment[12] / 16 * 4),
                    session_id: session.session_id,
                    verdict: InterceptVerdict::Drop,
                })
        }),
{
}

/// What leaves where the connection ends.
proof fn lemma_ending<NetAddr: NetworkAddr>(state: TcpState<NetAddr>, step: Step<NetAddr>)
    requires
        !step.reading(state).keeps(),
        step.reading(state).verdicts.len() == 0,
        step.reading(state).events.len() == 1,
        step.reading(state).settled(step.own).removes,
    ensures
        ({
            let reading = step.reading(state);
            let outcome = step.outcome(state);
            let settled = reading.settled(step.own);
            let id = reading.session.session_id;
            let n = crate::tcp_step::drained_verdicts(settled.session).len() as int;
            &&& settled.session.session_id == id
            &&& settled.session.session.client.queue == reading.session.session.client.queue
            &&& settled.session.session.server.queue == reading.session.session.server.queue
            &&& crate::tcp_step::drained_events(settled.session).len() == n
            &&& outcome.verdicts.len() == n + 1
            &&& outcome.events.len() == n + 4
            &&& forall|i: int|
                0 <= i < n ==> #[trigger] outcome.verdicts[i] == crate::tcp_step::drained_verdicts(
                    settled.session,
                )[i]
            &&& forall|i: int|
                0 <= i < n ==> outcome.events[i + 1]
                    == #[trigger] crate::tcp_step::drained_events(settled.session)[i]
            &&& outcome.events[n + 1] == crate::tcp_step::after_event(
                settled.packet,
                reading.input.is_client,
                id,
                settled.verdict,
            )
            &&& outcome.events[n + 2] == (TransportEvent::Close {
                is_client: false,
                session_id: id,
            })
            &&& outcome.events[n + 3] == (TransportEvent::Close { is_client: true, session_id: id })
        }),
{
}

/// What leaves where the connection goes on.
proof fn lemma_going_on<NetAddr: NetworkAddr>(state: TcpState<NetAddr>, step: Step<NetAddr>)
    requires
        !step.reading(state).keeps(),
        step.reading(state).verdicts.len() == 0,
        step.reading(state).events.len() == 1,
        !step.reading(state).settled(step.own).removes,
    ensures
        ({
            let reading = step.reading(state);
            let outcome = step.outcome(state);
            let settled = reading.settled(step.own);
            let id = reading.session.session_id;
            let packets = crate::tcp_step::let_go_packets(
                crate::tcp_step::settled_direction(reading, step.own),
                step.kept,
            );
            let n = packets.len() as int;
            &&& outcome.verdicts.len() == n + 1
            &&& outcome.events.len() == n + 2
            &&& forall|i: int|
                0 <= i < n ==> #[trigger] outcome.verdicts[i] == VerdictView::Accept(packets[i])
            &&& forall|i: int|
                0 <= i < n ==> outcome.events[i + 1] == crate::tcp_step::after_event(
                    #[trigger] packets[i],
                    reading.input.is_client,
                    id,
                    InterceptVerdict::Accept,
                )
            &&& outcome.events[n + 1] == crate::tcp_step::after_event(
                settled.packet,
                reading.input.is_client,
                id,
                settled.verdict,
            )
        }),
{
    let reading = step.reading(state);
    let outcome = step.outcome(state);
    let packets = crate::tcp_step::let_go_packets(
        crate::tcp_step::settled_direction(reading, step.own),
        step.kept,
    );
    let shown = crate::tcp_step::leaving_events(reading, step.own, step.kept);
    assert forall|i: int| 0 <= i < packets.len() implies outcome.events[i + 1]
        == crate::tcp_step::after_event(
        #[trigger] packets[i],
        reading.input.is_client,
        reading.session.session_id,
        InterceptVerdict::Accept,
    ) by {
        assert(outcome.events[i + 1] == shown[i]);
    }
}

/// A connection that ends, by a reset or for want of room, gives up all that waits, the client's
/// first, then the server's: each packet is dropped, and shown as dropped on the side that it came
/// from; then comes the packet that ended it, on the side of its sender; and last the end of both
/// sides. All of it is under the number of the connection.
#[verifier::spinoff_prover]
#[verifier::rlimit(50)]
pub proof fn law_end_drops_what_waits<NetAddr: NetworkAddr>(
    state: TcpState<NetAddr>,
    step: Step<NetAddr>,
    session: NumberedSessionView<NetAddr>,
    direction: TrackerView,
    port: int,
    seq: int,
    offset: int,
    start: int,
)
    requires
        state.sessions.contains_key(step.arrival.key()),
        crate::tcp_laws::valid_state(state),
        step.fits(state),
        session == state.sessions[step.arrival.key()],
        port == step.arrival.packet.segment[0] * 256 + step.arrival.packet.segment[1],
        seq == step.arrival.packet.segment[4] * 0x100_0000 + step.arrival.packet.segment[5]
            * 0x1_0000 + step.arrival.packet.segment[6] * 0x100 + step.arrival.packet.segment[7],
        offset == step.arrival.packet.segment[12] / 16 * 4,
        direction == if !session.session.src_init || (step.arrival.src_net
            == session.session.src_net && port == session.session.src_port) {
            session.session.client
        } else {
            session.session.server
        },
        start == if step.arrival.packet.segment[13] & 2 == 0 {
            seq
        } else {
            (seq + 1) % 0x1_0000_0000
        },
        step.arrival.packet.segment[13] & 2 == 0 || !direction.init || direction.syn_seq == Some(
            seq as u32,
        ),
        step.arrival.packet.segment[13] & 4 != 0 || (direction.init && direction.queue.len() >= 64
            && step.arrival.packet.segment.len() > offset && 1 <= start - direction.seq <= 65536),
    ensures
        ({
            let outcome = step.outcome(state);
            let waiting = session.session.client.queue + session.session.server.queue;
            let n = waiting.len() as int;
            let id = session.session_id;
            &&& outcome.verdicts.len() == n + 1
            &&& outcome.events.len() == n + 4
            &&& forall|i: int|
                0 <= i < n ==> #[trigger] outcome.verdicts[i] == VerdictView::Drop(waiting[i])
            &&& forall|i: int|
                0 <= i < n ==> outcome.events[i + 1] == (TransportEvent::After {
                    net_header: #[trigger] waiting[i].net_header,
                    transport_header: waiting[i].segment.take(waiting[i].segment[12] / 16 * 4),
                    is_client: i < session.session.client.queue.len(),
                    data: waiting[i].segment.skip(waiting[i].segment[12] / 16 * 4),
                    session_id: id,
                    verdict: InterceptVerdict::Drop,
                })
            &&& outcome.events[n + 1] is After
            &&& outcome.events[n + 1]->After_session_id == id
            &&& outcome.events[n + 1]->After_is_client == (!session.session.src_init || (
            step.arrival.src_net == session.session.src_net && port == session.session.src_port))
            &&& outcome.events[n + 2] == (TransportEvent::Close {
                is_client: false,
                session_id: id,
            })
            &&& outcome.events[n + 3] == (TransportEvent::Close { is_client: true, session_id: id })
            &&& !outcome.state.sessions.contains_key(step.arrival.key())
            &&& outcome.state.id_counter == state.id_counter
        }),
{
    crate::tcp_promises::lemma_open(
        state,
        step,
        session,
        direction,
        port,
        seq,
        offset,
        start,
    );
    let reading = step.reading(state);
    let settled = reading.settled(step.own);
    assert(!reading.keeps());
    assert(settled.removes);
    lemma_ending(state, step);
    let outcome = step.outcome(state);
    let waiting = session.session.client.queue + session.session.server.queue;
    assert forall|i: int| 0 <= i < waiting.len() implies #[trigger] outcome.verdicts[i]
        == VerdictView::Drop(waiting[i]) by {
        lemma_drained(settled.session, i);
    }
    assert forall|i: int| 0 <= i < waiting.len() implies outcome.events[i + 1] == (
    TransportEvent::After {
        net_header: #[trigger] waiting[i].net_header,
        transport_header: waiting[i].segment.take(waiting[i].segment[12] / 16 * 4),
        is_client: i < session.session.client.queue.len(),
        data: waiting[i].segment.skip(waiting[i].segment[12] / 16 * 4),
        session_id: session.session_id,
        verdict: InterceptVerdict::Drop,
    }) by {
        lemma_drained(settled.session, i);
        assert(outcome.events[i + 1] == crate::tcp_step::drained_events(settled.session)[i]);
    }
}

/// A packet that is not early and has no new data is accepted, and so is any other unless the data
/// handler drops it. One without data leaves as it arrived.
#[verifier::spinoff_prover]
#[verifier::rlimit(50)]
pub proof fn law_packet_is_accepted_unless_dropped<NetAddr: NetworkAddr>(
    state: TcpState<NetAddr>,
    step: Step<NetAddr>,
    session: NumberedSessionView<NetAddr>,
    direction: TrackerView,
    port: int,
    seq: int,
    offset: int,
    start: int,
)
    requires
        state.sessions.contains_key(step.arrival.key()),
        crate::tcp_laws::valid_state(state),
        step.fits(state),
        session == state.sessions[step.arrival.key()],
        port == step.arrival.packet.segment[0] * 256 + step.arrival.packet.segment[1],
        seq == step.arrival.packet.segment[4] * 0x100_0000 + step.arrival.packet.segment[5]
            * 0x1_0000 + step.arrival.packet.segment[6] * 0x100 + step.arrival.packet.segment[7],
        offset == step.arrival.packet.segment[12] / 16 * 4,
        direction == if !session.session.src_init || (step.arrival.src_net
            == session.session.src_net && port == session.session.src_port) {
            session.session.client
        } else {
            session.session.server
        },
        start == if step.arrival.packet.segment[13] & 2 == 0 {
            seq
        } else {
            (seq + 1) % 0x1_0000_0000
        },
        step.arrival.packet.segment[13] & 2 == 0 || !direction.init || direction.syn_seq == Some(
            seq as u32,
        ),
        !(direction.init && step.arrival.packet.segment[13] & 4 == 0
            && step.arrival.packet.segment.len() > offset && 1 <= start - direction.seq <= 65536),
    ensures
        ({
            let outcome = step.outcome(state);
            &&& outcome.verdicts.len() > 0
            &&& step.own is None ==> outcome.verdicts.last() is Accept
            &&& step.arrival.packet.segment.len() == offset ==> outcome.verdicts.last()
                == VerdictView::Accept(step.arrival.packet)
            &&& outcome.verdicts.last() is Drop <==> (step.own matches Some(call) && call.verdict
                == InterceptVerdict::Drop)
        }),
{
    crate::tcp_promises::lemma_open(
        state,
        step,
        session,
        direction,
        port,
        seq,
        offset,
        start,
    );
    let reading = step.reading(state);
    assert(!reading.is_future());
    let leaving = crate::tcp_step::leaving_verdicts(reading, step.own, step.kept);
    assert(step.outcome(state).verdicts.last() == leaving.last());
    if step.arrival.packet.segment.len() == offset {
        assert(step.own is None);
        assert(reading.packet.segment =~= step.arrival.packet.segment);
    }
}

/// Where a connection goes on, the spy is shown the packets that are let go, each as it leaves, as
/// accepted, and then the packet that arrived; all of them on the side of the sender, under the number
/// of the connection.
#[verifier::spinoff_prover]
#[verifier::rlimit(50)]
pub proof fn law_let_go_packets_are_shown<NetAddr: NetworkAddr>(
    state: TcpState<NetAddr>,
    step: Step<NetAddr>,
    session: NumberedSessionView<NetAddr>,
    direction: TrackerView,
    port: int,
    seq: int,
    offset: int,
    start: int,
)
    requires
        state.sessions.contains_key(step.arrival.key()),
        crate::tcp_laws::valid_state(state),
        step.fits(state),
        session == state.sessions[step.arrival.key()],
        port == step.arrival.packet.segment[0] * 256 + step.arrival.packet.segment[1],
        seq == step.arrival.packet.segment[4] * 0x100_0000 + step.arrival.packet.segment[5]
            * 0x1_0000 + step.arrival.packet.segment[6] * 0x100 + step.arrival.packet.segment[7],
        offset == step.arrival.packet.segment[12] / 16 * 4,
        direction == if !session.session.src_init || (step.arrival.src_net
            == session.session.src_net && port == session.session.src_port) {
            session.session.client
        } else {
            session.session.server
        },
        start == if step.arrival.packet.segment[13] & 2 == 0 {
            seq
        } else {
            (seq + 1) % 0x1_0000_0000
        },
        step.arrival.packet.segment[13] & 2 == 0 || !direction.init || direction.syn_seq == Some(
            seq as u32,
        ),
        step.arrival.packet.segment[13] & 4 == 0,
        !(direction.init && step.arrival.packet.segment[13] & 4 == 0
            && step.arrival.packet.segment.len() > offset && 1 <= start - direction.seq <= 65536),
    ensures
        ({
            let outcome = step.outcome(state);
            let n = step.kept.len() as int;
            let is_client = !session.session.src_init || (step.arrival.src_net
                == session.session.src_net && port == session.session.src_port);
            &&& outcome.verdicts.len() == n + 1
            &&& outcome.events.len() == n + 2
            &&& forall|i: int|
                0 <= i < n ==> {
                    &&& #[trigger] outcome.verdicts[i] matches VerdictView::Accept(packet)
                    &&& outcome.events[i + 1] == (TransportEvent::After {
                        net_header: packet.net_header,
                        transport_header: packet.segment.take(packet.segment[12] / 16 * 4),
                        is_client,
                        data: packet.segment.skip(packet.segment[12] / 16 * 4),
                        session_id: session.session_id,
                        verdict: InterceptVerdict::Accept,
                    })
                }
            &&& outcome.events[n + 1] is After
            &&& outcome.events[n + 1]->After_session_id == session.session_id
            &&& outcome.events[n + 1]->After_is_client == is_client
        }),
{
    crate::tcp_promises::lemma_open(
        state,
        step,
        session,
        direction,
        port,
        seq,
        offset,
        start,
    );
    let reading = step.reading(state);
    assert(!reading.is_future());
    lemma_going_on(state, step);
    let settled = crate::tcp_step::settled_direction(reading, step.own);
    assert(settled.valid()) by {
        crate::tcp_laws::lemma_settled(reading, step.own);
    }
    crate::tcp_laws::lemma_let_go(
        settled,
        step.kept,
        reading.input.is_client,
        reading.session.session_id,
    );
    let packets = crate::tcp_step::let_go_packets(settled, step.kept);
    let outcome = step.outcome(state);
    assert forall|i: int| 0 <= i < packets.len() implies {
        &&& #[trigger] outcome.verdicts[i] == VerdictView::Accept(packets[i])
        &&& outcome.events[i + 1] == crate::tcp_step::after_event(
            packets[i],
            reading.input.is_client,
            reading.session.session_id,
            InterceptVerdict::Accept,
        )
    } by {}
}

/// Where a connection goes on, the stream of the sender is moved on by what the data handler made of the
/// data of the packet, and nothing else of it changes; from there packets that wait are let go, and
/// accepted in the order in which they are. What still waits stays in its order.
#[verifier::spinoff_prover]
#[verifier::rlimit(50)]
pub proof fn law_what_waits_meets_the_moved_stream<NetAddr: NetworkAddr>(
    state: TcpState<NetAddr>,
    step: Step<NetAddr>,
    session: NumberedSessionView<NetAddr>,
    direction: TrackerView,
    port: int,
    seq: int,
    offset: int,
    start: int,
    handed: Seq<u8>,
    moved: TrackerView,
)
    requires
        state.sessions.contains_key(step.arrival.key()),
        crate::tcp_laws::valid_state(state),
        step.fits(state),
        session == state.sessions[step.arrival.key()],
        port == step.arrival.packet.segment[0] * 256 + step.arrival.packet.segment[1],
        seq == step.arrival.packet.segment[4] * 0x100_0000 + step.arrival.packet.segment[5]
            * 0x1_0000 + step.arrival.packet.segment[6] * 0x100 + step.arrival.packet.segment[7],
        offset == step.arrival.packet.segment[12] / 16 * 4,
        direction == if !session.session.src_init || (step.arrival.src_net
            == session.session.src_net && port == session.session.src_port) {
            session.session.client
        } else {
            session.session.server
        },
        start == if step.arrival.packet.segment[13] & 2 == 0 {
            seq
        } else {
            (seq + 1) % 0x1_0000_0000
        },
        step.arrival.packet.segment[13] & 2 == 0 || !direction.init || direction.syn_seq == Some(
            seq as u32,
        ),
        step.arrival.packet.segment[13] & 4 == 0,
        !(direction.init && step.arrival.packet.segment[13] & 4 == 0
            && step.arrival.packet.segment.len() > offset && 1 <= start - direction.seq <= 65536),
        handed == match step.own {
            Some(call) => call.out,
            None => Seq::empty(),
        },
        moved.init,
        moved.syn_seq == if direction.init {
            direction.syn_seq
        } else if step.arrival.packet.segment[13] & 2 == 0 {
            None
        } else {
            Some(seq as u32)
        },
        moved.seq == ((if direction.init { direction.seq as int } else { start }) + handed.len())
            % 0x1_0000_0000,
        moved.past == (direction.past + handed).skip(handed.len() as int),
        moved.seen == if direction.seen + handed.len() < 65536 {
            direction.seen + handed.len()
        } else {
            65536
        },
        moved.queue == direction.queue,
    ensures
        ({
            let outcome = step.outcome(state);
            let after = outcome.state.sessions[step.arrival.key()].session;
            let is_client = !session.session.src_init || (step.arrival.src_net
                == session.session.src_net && port == session.session.src_port);
            let packets = crate::tcp_step::let_go_packets(moved, step.kept);
            &&& moved.valid()
            &&& outcome.state.sessions.contains_key(step.arrival.key())
            &&& crate::tcp_step::let_go_calls_fit(
                moved,
                step.kept,
                is_client,
                session.session_id,
            )
            &&& (if is_client { after.client } else { after.server })
                == crate::tcp_step::let_go_direction(moved, step.kept)
            &&& packets.len() == step.kept.len()
            &&& forall|i: int|
                0 <= i < packets.len() ==> #[trigger] outcome.verdicts[i] == VerdictView::Accept(
                    packets[i],
                )
            &&& step.kept.len() == 0 ==> (if is_client { after.client } else { after.server })
                == moved
        }),
{
    crate::tcp_promises::lemma_open(
        state,
        step,
        session,
        direction,
        port,
        seq,
        offset,
        start,
    );
    let reading = step.reading(state);
    assert(!reading.is_future());
    lemma_going_on(state, step);
    let settled = crate::tcp_step::settled_direction(reading, step.own);
    assert(settled.valid()) by {
        crate::tcp_laws::lemma_settled(reading, step.own);
    }
    crate::tcp_promises::lemma_settled_stream(reading, step.own, handed);
    assert(settled.queue == direction.queue);
    assert(settled =~= moved);
    crate::tcp_laws::lemma_let_go(
        settled,
        step.kept,
        reading.input.is_client,
        reading.session.session_id,
    );
}

/// What holding a packet that opens a connection against it finds.
proof fn lemma_opening_reading<NetAddr: NetworkAddr>(state: TcpState<NetAddr>, step: Step<NetAddr>)
    requires
        crate::tcp_laws::valid_state(state),
        step.fits(state),
        crate::tcp_step::opens(state, step.arrival),
    ensures
        ({
            let reading = step.reading(state);
            let key = step.arrival.key();
            let found = state.sessions[key];
            &&& reading.packet.ident == step.arrival.packet.ident
            &&& reading.packet.net_header == step.arrival.packet.net_header
            &&& reading.session.session_id == state.id_counter
            &&& reading.own_call_fits(step.own)
            &&& state.sessions.contains_key(key) ==> {
                &&& reading.verdicts == crate::tcp_step::drained_verdicts(found)
                &&& reading.events.len() == crate::tcp_step::drained_events(found).len() + 1
                &&& forall|i: int|
                    0 <= i < crate::tcp_step::drained_events(found).len() ==> reading.events[i + 1]
                        == #[trigger] crate::tcp_step::drained_events(found)[i]
            }
            &&& !state.sessions.contains_key(key) ==> reading.verdicts.len() == 0
                && reading.events.len() == 1
        }),
{
    crate::tcp_laws::lemma_reading(state, step.arrival, step.fresh);
}

/// How a packet leaves that nothing waits behind.
proof fn lemma_opening_leaves<NetAddr: NetworkAddr>(
    reading: Reading<NetAddr>,
    own: Option<DataCall>,
    kept: Seq<DataCall>,
    offset: int,
)
    requires
        !reading.is_future(),
        reading.input.is_client,
        reading.own_call_fits(own),
        offset == crate::tcp_util::header_len_of(reading.packet.segment),
        14 <= offset <= reading.packet.segment.len(),
        reading.new_data_len() == reading.packet.segment.len() - offset,
        crate::tcp_step::drained_verdicts(reading.settled(own).session).len() == 0,
        crate::tcp_step::let_go_packets(
            crate::tcp_step::settled_direction(reading, own),
            kept,
        ).len() == 0,
    ensures
        ({
            let arrived = reading.packet;
            let out = match own {
                Some(call) => call.out,
                None => arrived.segment.skip(offset),
            };
            let packet = PacketView { segment: arrived.segment.take(offset) + out, ..arrived };
            let verdict = match own {
                Some(call) => call.verdict,
                None => InterceptVerdict::Accept,
            };
            let id = reading.session.session_id;
            let leaving = crate::tcp_step::leaving_verdicts(reading, own, kept);
            let shown = crate::tcp_step::leaving_events(reading, own, kept);
            &&& leaving.len() == 1
            &&& leaving[0] == match verdict {
                InterceptVerdict::Accept => VerdictView::Accept(packet),
                InterceptVerdict::Drop => VerdictView::Drop(packet),
            }
            &&& shown.len() == if reading.settled(own).removes { 3nat } else { 1nat }
            &&& shown[0] == (TransportEvent::After {
                net_header: arrived.net_header,
                transport_header: arrived.segment.take(offset),
                is_client: true,
                data: out,
                session_id: id,
                verdict,
            })
            &&& reading.settled(own).removes ==> {
                &&& shown[1] == (TransportEvent::Close { is_client: false, session_id: id })
                &&& shown[2] == (TransportEvent::Close { is_client: true, session_id: id })
            }
        }),
{
    let arrived = reading.packet;
    let out = match own {
        Some(call) => call.out,
        None => arrived.segment.skip(offset),
    };
    let packet = PacketView { segment: arrived.segment.take(offset) + out, ..arrived };
    let settled = reading.settled(own);
    assert(settled.packet.segment =~= packet.segment);
    assert(packet.segment[12] == arrived.segment[12]);
    assert(packet.segment.take(offset) =~= arrived.segment.take(offset));
    assert(packet.segment.skip(offset) =~= out);
    assert(crate::tcp_step::drained_events(settled.session).len() == 0);
}

/// A packet that opens a connection, be it the first between its ends or a SYN in the place of
/// another, leaves behind what waited there, as it arrived but for what the data handler made of its
/// data. Without data it is accepted. What waited is dropped, and shown as dropped on the side that it
/// came from, under the number of the old connection; the packet itself is shown as the client's under
/// the new number.
#[verifier::spinoff_prover]
#[verifier::rlimit(50)]
pub proof fn law_opening_packet_leaves<NetAddr: NetworkAddr>(
    state: TcpState<NetAddr>,
    step: Step<NetAddr>,
    session: NumberedSessionView<NetAddr>,
    direction: TrackerView,
    port: int,
    seq: int,
    offset: int,
    start: int,
    waiting: Seq<PacketView>,
)
    requires
        crate::tcp_laws::valid_state(state),
        step.fits(state),
        session == state.sessions[step.arrival.key()],
        port == step.arrival.packet.segment[0] * 256 + step.arrival.packet.segment[1],
        seq == step.arrival.packet.segment[4] * 0x100_0000 + step.arrival.packet.segment[5]
            * 0x1_0000 + step.arrival.packet.segment[6] * 0x100 + step.arrival.packet.segment[7],
        offset == step.arrival.packet.segment[12] / 16 * 4,
        direction == if !session.session.src_init || (step.arrival.src_net
            == session.session.src_net && port == session.session.src_port) {
            session.session.client
        } else {
            session.session.server
        },
        start == if step.arrival.packet.segment[13] & 2 == 0 {
            seq
        } else {
            (seq + 1) % 0x1_0000_0000
        },
        !state.sessions.contains_key(step.arrival.key()) || (step.arrival.packet.segment[13] & 2 != 0
            && direction.init && direction.syn_seq != Some(seq as u32)),
        waiting == if state.sessions.contains_key(step.arrival.key()) {
            session.session.client.queue + session.session.server.queue
        } else {
            Seq::empty()
        },
    ensures
        ({
            let outcome = step.outcome(state);
            let arrived = step.arrival.packet;
            let n = waiting.len() as int;
            let out = match step.own {
                Some(call) => call.out,
                None => arrived.segment.skip(offset),
            };
            let packet = PacketView { segment: arrived.segment.take(offset) + out, ..arrived };
            let verdict = match step.own {
                Some(call) => call.verdict,
                None => InterceptVerdict::Accept,
            };
            &&& arrived.segment.len() > offset <==> step.own is Some
            &&& outcome.verdicts.len() == n + 1
            &&& forall|i: int|
                0 <= i < n ==> #[trigger] outcome.verdicts[i] == VerdictView::Drop(waiting[i])
            &&& forall|i: int|
                0 <= i < n ==> outcome.events[i + 1] == (TransportEvent::After {
                    net_header: #[trigger] waiting[i].net_header,
                    transport_header: waiting[i].segment.take(waiting[i].segment[12] / 16 * 4),
                    is_client: i < session.session.client.queue.len(),
                    data: waiting[i].segment.skip(waiting[i].segment[12] / 16 * 4),
                    session_id: session.session_id,
                    verdict: InterceptVerdict::Drop,
                })
            &&& outcome.verdicts[n] == match verdict {
                InterceptVerdict::Accept => VerdictView::Accept(packet),
                InterceptVerdict::Drop => VerdictView::Drop(packet),
            }
            &&& outcome.events[n + 1] == (TransportEvent::After {
                net_header: arrived.net_header,
                transport_header: arrived.segment.take(offset),
                is_client: true,
                data: out,
                session_id: state.id_counter,
                verdict,
            })
            &&& arrived.segment[13] & 4 == 0 ==> outcome.events.len() == n + 2
            &&& arrived.segment[13] & 4 != 0 ==> {
                &&& outcome.events.len() == n + 4
                &&& outcome.events[n + 2] == (TransportEvent::Close {
                    is_client: false,
                    session_id: state.id_counter,
                })
                &&& outcome.events[n + 3] == (TransportEvent::Close {
                    is_client: true,
                    session_id: state.id_counter,
                })
            }
        }),
{
    crate::tcp_promises::lemma_opened(
        state,
        step,
        seq,
        offset,
        start,
        step.arrival.packet.segment.len() - offset,
    );
    let reading = step.reading(state);
    lemma_opening_reading(state, step);
    lemma_opening_leaves(reading, step.own, step.kept, offset);
    let outcome = step.outcome(state);
    let n = waiting.len() as int;
    let leaving = crate::tcp_step::leaving_verdicts(reading, step.own, step.kept);
    let shown = crate::tcp_step::leaving_events(reading, step.own, step.kept);
    assert(outcome.verdicts == reading.verdicts + leaving);
    assert(outcome.events == reading.events + shown);
    assert(reading.verdicts.len() == n && reading.events.len() == n + 1) by {
        if n > 0 {
            lemma_drained(session, 0);
        }
    }
    assert forall|i: int| 0 <= i < n implies #[trigger] outcome.verdicts[i] == VerdictView::Drop(
        waiting[i],
    ) by {
        lemma_drained(session, i);
    }
    assert forall|i: int| 0 <= i < n implies outcome.events[i + 1] == (TransportEvent::After {
        net_header: #[trigger] waiting[i].net_header,
        transport_header: waiting[i].segment.take(waiting[i].segment[12] / 16 * 4),
        is_client: i < session.session.client.queue.len(),
        data: waiting[i].segment.skip(waiting[i].segment[12] / 16 * 4),
        session_id: session.session_id,
        verdict: InterceptVerdict::Drop,
    }) by {
        lemma_drained(session, i);
        assert(outcome.events[i + 1] == crate::tcp_step::drained_events(session)[i]);
    }
}

/// What a connection remembers of the packet that opened it: the data, as the data handler left it.
#[verifier::spinoff_prover]
#[verifier::rlimit(50)]
pub proof fn law_opened_connection_remembers_its_data<NetAddr: NetworkAddr>(
    state: TcpState<NetAddr>,
    step: Step<NetAddr>,
    session: NumberedSessionView<NetAddr>,
    direction: TrackerView,
    port: int,
    seq: int,
    offset: int,
    start: int,
    out: Seq<u8>,
)
    requires
        crate::tcp_laws::valid_state(state),
        step.fits(state),
        session == state.sessions[step.arrival.key()],
        port == step.arrival.packet.segment[0] * 256 + step.arrival.packet.segment[1],
        seq == step.arrival.packet.segment[4] * 0x100_0000 + step.arrival.packet.segment[5]
            * 0x1_0000 + step.arrival.packet.segment[6] * 0x100 + step.arrival.packet.segment[7],
        offset == step.arrival.packet.segment[12] / 16 * 4,
        direction == if !session.session.src_init || (step.arrival.src_net
            == session.session.src_net && port == session.session.src_port) {
            session.session.client
        } else {
            session.session.server
        },
        start == if step.arrival.packet.segment[13] & 2 == 0 {
            seq
        } else {
            (seq + 1) % 0x1_0000_0000
        },
        step.arrival.packet.segment[13] & 4 == 0,
        !state.sessions.contains_key(step.arrival.key()) || (step.arrival.packet.segment[13] & 2 != 0
            && direction.init && direction.syn_seq != Some(seq as u32)),
        out == match step.own {
            Some(call) => call.out,
            None => Seq::empty(),
        },
    ensures
        ({
            let after = step.outcome(state).state.sessions[step.arrival.key()].session;
            let n = out.len() as int;
            &&& step.outcome(state).state.sessions.contains_key(step.arrival.key())
            &&& n == step.arrival.packet.segment.len() - offset
            &&& after.client.seen == n
            &&& after.client.past.len() == 65536
            &&& after.client.past.skip(65536 - n) == out
            &&& after.server.seen == 0
            &&& !after.handshake_done
            &&& after.created == step.fresh.created
        }),
{
    crate::tcp_promises::lemma_opened(
        state,
        step,
        seq,
        offset,
        start,
        step.arrival.packet.segment.len() - offset,
    );
    lemma_opening_reading(state, step);
    let reading = step.reading(state);
    let settled = crate::tcp_step::settled_direction(reading, step.own);
    assert(settled.seen == out.len());
    assert(settled.past.skip(65536 - out.len()) =~= out);
    assert(settled.queue.len() == 0);
    assert(settled.first_ready(0, 0) == 0);
    assert(settled.releases(0) =~= seq![]);
    assert(crate::tcp_step::let_go_direction(settled, step.kept) == settled);
}

/// Which side a packet is on, and what is remembered of the client's end.
proof fn lemma_side<NetAddr: NetworkAddr>(state: TcpState<NetAddr>, step: Step<NetAddr>)
    requires
        step.fits(state),
    ensures
        ({
            let placed = step.reading(state).session.session;
            let after = step.outcome(state).state;
            let key = step.arrival.key();
            let found = state.sessions[key].session;
            &&& after.last_is_client == (placed.src_net == step.arrival.src_net && placed.src_port
                == step.arrival.src_port())
            &&& crate::tcp_step::opens(state, step.arrival) || !found.src_init ==> placed.src_net
                == step.arrival.src_net && placed.src_port == step.arrival.src_port()
            &&& !crate::tcp_step::opens(state, step.arrival) && found.src_init ==> placed.src_net
                == found.src_net && placed.src_port == found.src_port
            &&& after.sessions.contains_key(key) ==> after.sessions[key].session.src_net
                == placed.src_net && after.sessions[key].session.src_port == placed.src_port
                && after.sessions[key].session.src_init
        }),
{
}

/// The two directions of a connection between different ends are never the same side: a packet that
/// goes back the way of the one before it is the server's if that was the client's, and the
/// client's if that was the server's. One that goes the same way is on the same side.
#[verifier::spinoff_prover]
#[verifier::rlimit(50)]
pub proof fn law_way_back_is_the_other_side<NetAddr: NetworkAddr>(
    state: TcpState<NetAddr>,
    step: Step<NetAddr>,
    next: Step<NetAddr>,
    src_port: int,
    dst_port: int,
    next_src_port: int,
    next_dst_port: int,
    session: NumberedSessionView<NetAddr>,
)
    requires
        step.fits(state),
        next.fits(step.outcome(state).state),
        src_port == step.arrival.packet.segment[0] * 256 + step.arrival.packet.segment[1],
        dst_port == step.arrival.packet.segment[2] * 256 + step.arrival.packet.segment[3],
        next_src_port == next.arrival.packet.segment[0] * 256 + next.arrival.packet.segment[1],
        next_dst_port == next.arrival.packet.segment[2] * 256 + next.arrival.packet.segment[3],
        next.arrival.packet.segment[13] & 2 == 0,
        step.arrival.src_net != step.arrival.dst_net || src_port != dst_port,
        step.outcome(state).state.sessions.contains_key(step.arrival.key()),
        session == state.sessions[step.arrival.key()],
        state.sessions.contains_key(step.arrival.key()) && session.session.src_init ==> {
            ||| session.session.src_net == step.arrival.src_net && session.session.src_port
                == src_port
            ||| session.session.src_net == step.arrival.dst_net && session.session.src_port
                == dst_port
        },
    ensures
        ({
            let after = step.outcome(state).state;
            let later = next.outcome(after).state;
            let same_way = next.arrival.src_net == step.arrival.src_net && next_src_port == src_port
                && next.arrival.dst_net == step.arrival.dst_net && next_dst_port == dst_port;
            let way_back = next.arrival.src_net == step.arrival.dst_net && next_src_port == dst_port
                && next.arrival.dst_net == step.arrival.src_net && next_dst_port == src_port;
            &&& same_way ==> later.last_is_client == after.last_is_client
            &&& way_back ==> later.last_is_client != after.last_is_client
        }),
{
    let after = step.outcome(state).state;
    crate::tcp_promises::law_connection_is_its_ends(
        step.arrival,
        next.arrival,
        src_port,
        dst_port,
        next_src_port,
        next_dst_port,
    );
    lemma_side(state, step);
    lemma_side(after, next);
}

/// A packet leaves all connections but its own alone.
#[verifier::spinoff_prover]
#[verifier::rlimit(50)]
pub proof fn law_other_connections_are_left_alone<NetAddr: NetworkAddr>(
    state: TcpState<NetAddr>,
    step: Step<NetAddr>,
    key: crate::sessions::NetAddrPair<NetAddr>,
    src_port: int,
    dst_port: int,
)
    requires
        crate::tcp_laws::valid_state(state),
        step.fits(state),
        src_port == step.arrival.packet.segment[0] * 256 + step.arrival.packet.segment[1],
        dst_port == step.arrival.packet.segment[2] * 256 + step.arrival.packet.segment[3],
    ensures
        ({
            let after = step.outcome(state).state;
            let own = step.arrival.key();
            &&& key != own ==> {
                &&& after.sessions.contains_key(key) <==> state.sessions.contains_key(key)
                &&& state.sessions.contains_key(key) ==> after.sessions[key] == state.sessions[key]
            }
            &&& after.last_used_key == Some(
                (
                    TcpAddr { net: step.arrival.src_net, port: src_port as u16 },
                    TcpAddr { net: step.arrival.dst_net, port: dst_port as u16 },
                ),
            )
        }),
{
}

/// A packet that is let go in the first round.
proof fn lemma_first_round(
    direction: TrackerView,
    calls: Seq<DataCall>,
    is_client: bool,
    id: u64,
    i: int,
)
    requires
        crate::tcp_step::let_go_calls_fit(direction, calls, is_client, id),
        0 <= i < direction.releases(0).len(),
    ensures
        ({
            let release = direction.releases(0)[i];
            let segment = release.packet.segment;
            let packets = crate::tcp_step::let_go_packets(direction, calls);
            &&& calls[i].out.len() == release.new_data_len
            &&& calls[i].data == segment.skip(segment.len() - release.new_data_len)
            &&& packets[i].ident == release.packet.ident
            &&& packets[i].net_header == release.packet.net_header
            &&& packets[i].segment == segment.take(segment.len() - release.new_data_len)
                + calls[i].out
        }),
{
    let releases = direction.releases(0);
    let n = releases.len() as int;
    let first = calls.take(n);
    assert(crate::tcp_step::are_calls_for(first, releases, is_client, id));
    assert(crate::tcp_step::is_call_for(
        first[i],
        releases[i].packet,
        releases[i].new_data_len,
        is_client,
        id,
    ));
    let kept = crate::tcp_step::kept_packets(releases, first);
    assert(crate::tcp_step::let_go_packets(direction, calls)[i] == kept[i]);
}

/// The packets that are let go leave in the order in which the stream lets them go, each with what
/// the data handler made of the new data at its end, and what it made of them lets others go, until
/// none is left that can go.
#[verifier::spinoff_prover]
#[verifier::rlimit(50)]
pub proof fn law_let_go_in_rounds(
    direction: TrackerView,
    calls: Seq<DataCall>,
    is_client: bool,
    id: u64,
    n: int,
    data: Seq<u8>,
)
    requires
        direction.valid(),
        crate::tcp_step::let_go_calls_fit(direction, calls, is_client, id),
        n == direction.releases(0).len(),
        data == calls.take(n).map_values(|call: DataCall| call.out).flatten(),
    ensures
        ({
            let releases = direction.releases(0);
            let packets = crate::tcp_step::let_go_packets(direction, calls);
            let after = crate::tcp_step::let_go_direction(direction, calls);
            let next = direction.released(data);
            &&& packets.len() == calls.len()
            &&& n == 0 ==> calls.len() == 0 && after == direction
            &&& n > 0 ==> {
                &&& n <= calls.len()
                &&& forall|i: int|
                    0 <= i < n ==> {
                        let segment = releases[i].packet.segment;
                        let new = releases[i].new_data_len;
                        &&& #[trigger] calls[i].out.len() == new
                        &&& calls[i].data == segment.skip(segment.len() - new)
                        &&& packets[i].ident == releases[i].packet.ident
                        &&& packets[i].net_header == releases[i].packet.net_header
                        &&& packets[i].segment == segment.take(segment.len() - new) + calls[i].out
                    }
                &&& crate::tcp_step::let_go_calls_fit(next, calls.skip(n), is_client, id)
                &&& packets.skip(n) == crate::tcp_step::let_go_packets(next, calls.skip(n))
                &&& after == crate::tcp_step::let_go_direction(next, calls.skip(n))
            }
        }),
{
    crate::tcp_laws::lemma_let_go(direction, calls, is_client, id);
    if n > 0 {
        let first = calls.take(n);
        let releases = direction.releases(0);
        assert(crate::tcp_step::outs(first) =~= first.map_values(|call: DataCall| call.out));
        crate::tcp_tracker_laws::lemma_joined_is_flat(crate::tcp_step::outs(first));
        let next = crate::tcp_step::round_over(direction, first);
        assert(next == direction.released(data));
        let packets = crate::tcp_step::let_go_packets(direction, calls);
        assert(packets == crate::tcp_step::kept_packets(releases, first)
            + crate::tcp_step::let_go_packets(next, calls.skip(n)));
        assert(packets.skip(n) =~= crate::tcp_step::let_go_packets(next, calls.skip(n)));
        assert forall|i: int| 0 <= i < n implies {
            let segment = releases[i].packet.segment;
            let new = releases[i].new_data_len;
            &&& #[trigger] calls[i].out.len() == new
            &&& calls[i].data == segment.skip(segment.len() - new)
            &&& packets[i].ident == releases[i].packet.ident
            &&& packets[i].net_header == releases[i].packet.net_header
            &&& packets[i].segment == segment.take(segment.len() - new) + calls[i].out
        } by {
            lemma_first_round(direction, calls, is_client, id, i);
        }
    }
}

} // verus!
