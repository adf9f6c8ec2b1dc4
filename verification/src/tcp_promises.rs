//! What the TCP handler promises, in terms of the bytes of the packets and of what comes of them.
use vstd::prelude::*;

use crate::addr::NetworkAddr;
use crate::handler::{DataCall, TransportEvent};
use crate::packet::{InterceptVerdict, PacketView, VerdictView};
use crate::sessions::NumberedSessionView;
use crate::tcp_history::Step;
use crate::tcp_step::{Arrival, Reading, TcpState};
use crate::tcp_tracker::TrackerView;

verus! {

/// Two packets belong to the same connection exactly if they travel between the same two ends, in
/// the same direction or in opposite ones.
#[verifier::spinoff_prover]
#[verifier::rlimit(50)]
pub proof fn law_connection_is_its_ends<NetAddr: NetworkAddr>(
    a: Arrival<NetAddr>,
    b: Arrival<NetAddr>,
    a_src: int,
    a_dst: int,
    b_src: int,
    b_dst: int,
)
    requires
        a_src == a.packet.segment[0] * 256 + a.packet.segment[1],
        a_dst == a.packet.segment[2] * 256 + a.packet.segment[3],
        b_src == b.packet.segment[0] * 256 + b.packet.segment[1],
        b_dst == b.packet.segment[2] * 256 + b.packet.segment[3],
    ensures
        a.key() == b.key() <==> {
            ||| a.src_net == b.src_net && a_src == b_src && a.dst_net == b.dst_net && a_dst == b_dst
            ||| a.src_net == b.dst_net && a_src == b_dst && a.dst_net == b.src_net && a_dst == b_src
        },
{
    crate::addr::law_session_key_is_the_connection(a.src(), a.dst(), b.src(), b.dst());
}

/// What a call for a packet that is let go has to do with the packet that leaves.
#[verifier::spinoff_prover]
#[verifier::rlimit(50)]
proof fn lemma_let_go_call(
    direction: TrackerView,
    calls: Seq<DataCall>,
    is_client: bool,
    id: u64,
    i: int,
) -> (packet: PacketView)
    requires
        direction.valid(),
        crate::tcp_step::let_go_calls_fit(direction, calls, is_client, id),
        0 <= i < calls.len(),
    ensures
        calls[i].is_client == is_client,
        calls[i].session_id == id,
        crate::tcp_step::is_call_for(
            calls[i],
            packet,
            calls[i].out.len() as int,
            is_client,
            id,
        ),
        crate::tcp_tracker::is_segment(packet.segment),
        calls[i].out.len() <= crate::tcp_tracker::data_of(packet.segment).len(),
        i < crate::tcp_step::let_go_packets(direction, calls).len(),
        crate::tcp_step::let_go_packets(direction, calls)[i] == crate::tcp_step::with_new_data(
            packet,
            calls[i].out,
        ),
    decreases calls.len(),
{
    let releases = direction.releases(0);
    let n = releases.len() as int;
    let first = calls.take(n);
    crate::tcp_laws::lemma_let_go(direction, calls, is_client, id);
    crate::tcp_laws::lemma_round(direction, first, is_client, id);
    crate::tcp_laws::lemma_release_conserves(direction, 0);
    if i < n {
        assert(crate::tcp_step::is_call_for(
            first[i],
            releases[i].packet,
            releases[i].new_data_len,
            is_client,
            id,
        ));
        assert(crate::tcp_step::let_go_packets(direction, calls)[i]
            == crate::tcp_step::kept_packets(releases, first)[i]);
        releases[i].packet
    } else {
        let over = crate::tcp_step::round_over(direction, first);
        let rest = calls.skip(n);
        assert(rest[i - n] == calls[i]);
        let packet = lemma_let_go_call(over, rest, is_client, id, i - n);
        assert(crate::tcp_step::let_go_packets(direction, calls)[i]
            == crate::tcp_step::let_go_packets(over, rest)[i - n]);
        packet
    }
}

/// Whether the spy is shown what the verdict is about.
pub open spec fn is_shown(event: TransportEvent, verdict: VerdictView) -> bool {
    match verdict {
        VerdictView::Keep => false,
        VerdictView::Accept(packet) => leaves_as(event, packet, InterceptVerdict::Accept),
        VerdictView::Drop(packet) => leaves_as(event, packet, InterceptVerdict::Drop),
    }
}

/// Packets that are dropped when another connection is opened are shown.
proof fn lemma_earlier_is_shown<NetAddr: NetworkAddr>(
    state: TcpState<NetAddr>,
    step: Step<NetAddr>,
)
    ensures
        ({
            let reading = step.reading(state);
            &&& reading.events.len() == reading.verdicts.len() + 1
            &&& forall|i: int|
                0 <= i < reading.verdicts.len() ==> is_shown(
                    #[trigger] reading.events[1 + i],
                    reading.verdicts[i],
                )
        }),
{
    let reading = step.reading(state);
    if crate::tcp_step::reopens(state, step.arrival) {
        let found = state.sessions[step.arrival.key()];
        lemma_drained_is_shown(found);
        assert forall|i: int| 0 <= i < reading.verdicts.len() implies is_shown(
            #[trigger] reading.events[1 + i],
            reading.verdicts[i],
        ) by {
            assert(reading.events[1 + i] == crate::tcp_step::drained_events(found)[i]);
        }
    }
}

proof fn lemma_drained_is_shown<NetAddr>(session: NumberedSessionView<NetAddr>)
    ensures
        crate::tcp_step::drained_events(session).len() == crate::tcp_step::drained_verdicts(
            session,
        ).len(),
        forall|i: int|
            0 <= i < crate::tcp_step::drained_events(session).len() ==> is_shown(
                #[trigger] crate::tcp_step::drained_events(session)[i],
                crate::tcp_step::drained_verdicts(session)[i],
            ),
{
}

/// Packets that leave are shown.
#[verifier::spinoff_prover]
#[verifier::rlimit(50)]
proof fn lemma_leaving_is_shown<NetAddr: NetworkAddr>(
    reading: Reading<NetAddr>,
    own: Option<DataCall>,
    kept: Seq<DataCall>,
)
    ensures
        ({
            let leaving = crate::tcp_step::leaving_verdicts(reading, own, kept);
            let shown = crate::tcp_step::leaving_events(reading, own, kept);
            let n = leaving.len();
            &&& n > 0
            &&& !(leaving.last() is Keep)
            &&& shown.len() == if reading.settled(own).removes { n + 2 } else { n }
            &&& forall|i: int|
                0 <= i < n ==> is_shown(#[trigger] shown[i], leaving[i])
            &&& forall|i: int| n <= i < shown.len() ==> #[trigger] shown[i] is Close
        }),
{
    let settled = reading.settled(own);
    lemma_drained_is_shown(settled.session);
    let leaving = crate::tcp_step::leaving_verdicts(reading, own, kept);
    let shown = crate::tcp_step::leaving_events(reading, own, kept);
    let n = leaving.len() as int;
    assert forall|i: int| 0 <= i < n implies is_shown(#[trigger] shown[i], leaving[i]) by {
        if i < n - 1 && settled.removes {
            assert(shown[i] == crate::tcp_step::drained_events(settled.session)[i]);
            assert(leaving[i] == crate::tcp_step::drained_verdicts(settled.session)[i]);
        }
    }
}

/// Whether the spy is shown this packet, as it leaves, with this verdict.
pub open spec fn leaves_as(
    event: TransportEvent,
    packet: PacketView,
    verdict: InterceptVerdict,
) -> bool {
    event matches TransportEvent::After {
        net_header,
        transport_header,
        is_client: _,
        data,
        session_id: _,
        verdict: shown,
    } && net_header == packet.net_header && transport_header == packet.segment.take(
        packet.segment[12] / 16 * 4,
    ) && data == packet.segment.skip(packet.segment[12] / 16 * 4) && shown == verdict
}

/// What a packet does to the connection that is opened for it.
#[verifier::spinoff_prover]
#[verifier::rlimit(50)]
pub proof fn lemma_opened<NetAddr: NetworkAddr>(
    state: TcpState<NetAddr>,
    step: Step<NetAddr>,
    seq: int,
    offset: int,
    start: int,
    n: int,
)
    requires
        crate::tcp_laws::valid_state(state),
        step.fits(state),
        crate::tcp_step::opens(state, step.arrival),
        seq == crate::tcp_util::seq_of(step.arrival.packet.segment),
        offset == crate::tcp_util::header_len_of(step.arrival.packet.segment),
        start == crate::tcp_tracker::start_of(step.arrival.packet.segment),
        n == step.arrival.packet.segment.len() - offset,
    ensures
        ({
            let reading = step.reading(state);
            let segment = step.arrival.packet.segment;
            let after = crate::tcp_step::left_session(reading, step.own, step.kept);
            &&& reading.packet.segment == segment
            &&& reading.input.is_client
            &&& reading.direction() == TrackerView::fresh()
            &&& reading.session.session.server == TrackerView::fresh()
            &&& !reading.is_future()
            &&& reading.new_data_len() == n
            &&& step.kept.len() == 0
            &&& reading.settled(step.own).removes == (segment[13] & 4 != 0)
            &&& segment[13] & 4 == 0 ==> {
                &&& after.session.client.init
                &&& after.session.client.queue.len() == 0
                &&& after.session.client.syn_seq == if segment[13] & 2 == 0 {
                    None
                } else {
                    Some(seq as u32)
                }
                &&& after.session.client.seq == (start + n) % 0x1_0000_0000
            }
            &&& crate::tcp_step::drained_verdicts(reading.settled(step.own).session).len() == 0
            &&& crate::tcp_step::let_go_packets(
                crate::tcp_step::settled_direction(reading, step.own),
                step.kept,
            ).len() == 0
        }),
{
    crate::tcp_laws::lemma_reading(state, step.arrival, step.fresh);
    let reading = step.reading(state);
    assert(reading.packet.segment =~= step.arrival.packet.segment);
    let settled = crate::tcp_step::settled_direction(reading, step.own);
    assert(settled.queue.len() == 0);
    assert(settled.first_ready(0, 0) == 0);
    assert(settled.releases(0) =~= seq![]);
}

/// A packet is the client's exactly if it comes from the address and the port of the client, and the
/// first packet of a connection is the client's. Everything that comes of the packet is on its side;
/// the other side stays as it is.
#[verifier::spinoff_prover]
#[verifier::rlimit(50)]
pub proof fn law_sender_tells_the_side<NetAddr: NetworkAddr>(
    state: TcpState<NetAddr>,
    step: Step<NetAddr>,
    session: NumberedSessionView<NetAddr>,
    direction: TrackerView,
    port: int,
    seq: int,
)
    requires
        crate::tcp_laws::valid_state(state),
        step.fits(state),
        state.sessions.contains_key(step.arrival.key()),
        session == state.sessions[step.arrival.key()],
        port == step.arrival.packet.segment[0] * 256 + step.arrival.packet.segment[1],
        seq == step.arrival.packet.segment[4] * 0x100_0000 + step.arrival.packet.segment[5]
            * 0x1_0000 + step.arrival.packet.segment[6] * 0x100 + step.arrival.packet.segment[7],
        direction == if !session.session.src_init || (step.arrival.src_net
            == session.session.src_net && port == session.session.src_port) {
            session.session.client
        } else {
            session.session.server
        },
        step.arrival.packet.segment[13] & 2 == 0 || !direction.init || direction.syn_seq == Some(
            seq as u32,
        ),
    ensures
        ({
            let outcome = step.outcome(state);
            let is_client = !session.session.src_init || (step.arrival.src_net
                == session.session.src_net && port == session.session.src_port);
            &&& outcome.state.last_is_client == is_client
            &&& step.own matches Some(call) ==> call.is_client == is_client
            &&& forall|i: int|
                0 <= i < step.kept.len() ==> (#[trigger] step.kept[i]).is_client == is_client
            &&& outcome.state.sessions.contains_key(step.arrival.key()) ==> {
                let after = outcome.state.sessions[step.arrival.key()];
                &&& is_client ==> after.session.server == session.session.server
                &&& !is_client ==> after.session.client == session.session.client
                &&& after.session.src_init
                &&& session.session.src_init ==> after.session.src_net == session.session.src_net
                    && after.session.src_port == session.session.src_port
                &&& !session.session.src_init ==> after.session.src_net == step.arrival.src_net
                    && after.session.src_port == port
            }
        }),
{
    crate::tcp_laws::lemma_reading(state, step.arrival, step.fresh);
    let reading = step.reading(state);
    if !reading.keeps() {
        crate::tcp_laws::lemma_settled(reading, step.own);
        if !reading.settled(step.own).removes {
            assert forall|i: int| 0 <= i < step.kept.len() implies (
            #[trigger] step.kept[i]).is_client == reading.input.is_client by {
                let _ = lemma_let_go_call(
                    crate::tcp_step::settled_direction(reading, step.own),
                    step.kept,
                    reading.input.is_client,
                    reading.session.session_id,
                    i,
                );
            }
        }
    }
}

/// What the data handler decides about the packet that arrived is carried out, on either side, and
/// the spy is shown it: the last verdict is on that packet, and it carries what the data handler
/// made of its data.
#[verifier::spinoff_prover]
#[verifier::rlimit(50)]
pub proof fn law_data_handler_decides<NetAddr: NetworkAddr>(
    state: TcpState<NetAddr>,
    step: Step<NetAddr>,
    call: DataCall,
    offset: int,
)
    requires
        crate::tcp_laws::valid_state(state),
        step.fits(state),
        step.own == Some(call),
        offset == step.arrival.packet.segment[12] / 16 * 4,
    ensures
        ({
            let outcome = step.outcome(state);
            let arrived = step.arrival.packet;
            let n = outcome.events.len();
            let shown = outcome.events[if arrived.segment[13] & 4 == 0 { n - 1 } else { n - 3 }];
            let packet = match outcome.verdicts.last() {
                VerdictView::Accept(packet) => packet,
                VerdictView::Drop(packet) => packet,
                VerdictView::Keep => arrived,
            };
            &&& outcome.verdicts.len() > 0
            &&& call.verdict == InterceptVerdict::Drop <==> outcome.verdicts.last() is Drop
            &&& call.verdict == InterceptVerdict::Accept <==> outcome.verdicts.last() is Accept
            &&& packet.ident == arrived.ident
            &&& packet.net_header == arrived.net_header
            &&& packet.segment.len() == arrived.segment.len()
            &&& packet.segment.take(offset) == arrived.segment.take(offset)
            &&& packet.segment.skip(packet.segment.len() - call.out.len()) == call.out
            &&& n >= 2
            &&& shown == (TransportEvent::After {
                net_header: arrived.net_header,
                transport_header: arrived.segment.take(offset),
                is_client: call.is_client,
                data: packet.segment.skip(offset),
                session_id: call.session_id,
                verdict: call.verdict,
            })
        }),
{
    crate::tcp_laws::lemma_reading(state, step.arrival, step.fresh);
    let reading = step.reading(state);
    crate::tcp_laws::lemma_settled(reading, step.own);
    let settled = reading.settled(step.own);
    let segment = settled.packet.segment;
    let arrived = step.arrival.packet;
    assert(crate::tcp_laws::shape(settled.packet) == crate::tcp_laws::shape(arrived));
    assert(arrived.segment.take(offset) == crate::tcp_tracker::header_of(arrived.segment));
    assert(segment.take(offset)[12] == arrived.segment.take(offset)[12]);
    assert(segment.skip(segment.len() - call.out.len()) =~= call.out);
    assert(settled.removes == (arrived.segment[13] & 4 != 0));
}

/// A packet with data that is up to 65536 bytes ahead of its stream waits, if there is room for it: it
/// is not let through, and the data handler is not called before the data in front of it is there.
#[verifier::spinoff_prover]
#[verifier::rlimit(50)]
pub proof fn law_early_packet_waits<NetAddr: NetworkAddr>(
    state: TcpState<NetAddr>,
    step: Step<NetAddr>,
    session: NumberedSessionView<NetAddr>,
    direction: TrackerView,
    port: int,
    seq: int,
    offset: int,
    start: int,
)
    requires
        crate::tcp_laws::valid_state(state),
        step.fits(state),
        state.sessions.contains_key(step.arrival.key()),
        session == state.sessions[step.arrival.key()],
        port == step.arrival.packet.segment[0] * 256 + step.arrival.packet.segment[1],
        seq == step.arrival.packet.segment[4] * 0x100_0000 + step.arrival.packet.segment[5]
            * 0x1_0000 + step.arrival.packet.segment[6] * 0x100 + step.arrival.packet.segment[7],
        offset == step.arrival.packet.segment[12] / 16 * 4,
        direction == if !session.session.src_init || (step.arrival.src_net
            == session.session.src_net && port == session.session.src_port) {
            session.session.client
        } else {
            session.session.server
        },
        start == if step.arrival.packet.segment[13] & 2 == 0 {
            seq
        } else {
            (seq + 1) % 0x1_0000_0000
        },
        step.arrival.packet.segment[13] & 2 == 0 || !direction.init || direction.syn_seq == Some(
            seq as u32,
        ),
        direction.init,
        step.arrival.packet.segment[13] & 4 == 0,
        step.arrival.packet.segment.len() > offset,
        1 <= start - direction.seq <= 65536,
        direction.queue.len() < 64,
    ensures
        ({
            let outcome = step.outcome(state);
            let after = outcome.state.sessions[step.arrival.key()];
            let waiting = if outcome.state.last_is_client {
                after.session.client
            } else {
                after.session.server
            };
            &&& outcome.verdicts == seq![VerdictView::Keep]
            &&& step.own is None
            &&& step.kept.len() == 0
            &&& outcome.events.len() == 1
            &&& outcome.state.sessions.contains_key(step.arrival.key())
            &&& after.session_id == session.session_id
            &&& waiting == (TrackerView {
                queue: direction.queue.push(step.arrival.packet),
                ..direction
            })
        }),
{
    crate::tcp_laws::lemma_reading(state, step.arrival, step.fresh);
    let reading = step.reading(state);
    assert(reading.keeps());
    assert(reading.packet.segment =~= step.arrival.packet.segment);
    let outcome = step.outcome(state);
    assert(outcome.state.sessions[step.arrival.key()] == reading.kept());
}

/// Where there is no room for it, such a packet is dropped, and its connection ends with everything
/// that was waiting dropped too.
#[verifier::spinoff_prover]
#[verifier::rlimit(50)]
pub proof fn law_early_packet_without_room_ends_the_connection<NetAddr: NetworkAddr>(
    state: TcpState<NetAddr>,
    step: Step<NetAddr>,
    session: NumberedSessionView<NetAddr>,
    direction: TrackerView,
    port: int,
    seq: int,
    offset: int,
    start: int,
)
    requires
        crate::tcp_laws::valid_state(state),
        step.fits(state),
        state.sessions.contains_key(step.arrival.key()),
        session == state.sessions[step.arrival.key()],
        port == step.arrival.packet.segment[0] * 256 + step.arrival.packet.segment[1],
        seq == step.arrival.packet.segment[4] * 0x100_0000 + step.arrival.packet.segment[5]
            * 0x1_0000 + step.arrival.packet.segment[6] * 0x100 + step.arrival.packet.segment[7],
        offset == step.arrival.packet.segment[12] / 16 * 4,
        direction == if !session.session.src_init || (step.arrival.src_net
            == session.session.src_net && port == session.session.src_port) {
            session.session.client
        } else {
            session.session.server
        },
        start == if step.arrival.packet.segment[13] & 2 == 0 {
            seq
        } else {
            (seq + 1) % 0x1_0000_0000
        },
        step.arrival.packet.segment[13] & 2 == 0 || !direction.init || direction.syn_seq == Some(
            seq as u32,
        ),
        direction.init,
        step.arrival.packet.segment[13] & 4 == 0,
        step.arrival.packet.segment.len() > offset,
        1 <= start - direction.seq <= 65536,
        direction.queue.len() >= 64,
    ensures
        ({
            let outcome = step.outcome(state);
            let waiting = session.session.client.queue + session.session.server.queue;
            &&& outcome.verdicts.len() == waiting.len() + 1
            &&& forall|i: int|
                0 <= i < waiting.len() ==> #[trigger] outcome.verdicts[i] == VerdictView::Drop(
                    waiting[i],
                )
            &&& outcome.verdicts.last() == VerdictView::Drop(step.arrival.packet)
            &&& step.own is None
            &&& step.kept.len() == 0
            &&& !outcome.state.sessions.contains_key(step.arrival.key())
        }),
{
    crate::tcp_laws::lemma_reading(state, step.arrival, step.fresh);
    let reading = step.reading(state);
    assert(!reading.keeps());
    assert(reading.packet.segment =~= step.arrival.packet.segment);
    assert(reading.settled(step.own).removes);
}

/// Data that reaches beyond what the stream holds is handed to the data handler from there on: all of
/// it, nothing else, and under its own sequence number.
#[verifier::spinoff_prover]
#[verifier::rlimit(50)]
pub proof fn law_new_data_is_handed_over<NetAddr: NetworkAddr>(
    state: TcpState<NetAddr>,
    step: Step<NetAddr>,
    session: NumberedSessionView<NetAddr>,
    direction: TrackerView,
    port: int,
    seq: int,
    offset: int,
    start: int,
    n: int,
)
    requires
        crate::tcp_laws::valid_state(state),
        step.fits(state),
        state.sessions.contains_key(step.arrival.key()),
        session == state.sessions[step.arrival.key()],
        port == step.arrival.packet.segment[0] * 256 + step.arrival.packet.segment[1],
        seq == step.arrival.packet.segment[4] * 0x100_0000 + step.arrival.packet.segment[5]
            * 0x1_0000 + step.arrival.packet.segment[6] * 0x100 + step.arrival.packet.segment[7],
        offset == step.arrival.packet.segment[12] / 16 * 4,
        direction == if !session.session.src_init || (step.arrival.src_net
            == session.session.src_net && port == session.session.src_port) {
            session.session.client
        } else {
            session.session.server
        },
        start == if step.arrival.packet.segment[13] & 2 == 0 {
            seq
        } else {
            (seq + 1) % 0x1_0000_0000
        },
        step.arrival.packet.segment[13] & 2 == 0 || !direction.init || direction.syn_seq == Some(
            seq as u32,
        ),
        n == step.arrival.packet.segment.len() - offset,
        direction.init ==> start <= direction.seq < start + n,
        !direction.init ==> n > 0,
    ensures
        ({
            let segment = step.arrival.packet.segment;
            let new = if direction.init { start + n - direction.seq } else { n };
            &&& step.own matches Some(call)
            &&& call.data == segment.skip(segment.len() - new)
            &&& call.out.len() == new
            &&& call.counter == (seq + n - new) % 0x1_0000_0000
            &&& call.session_id == session.session_id
        }),
{
    crate::tcp_laws::lemma_reading(state, step.arrival, step.fresh);
    let reading = step.reading(state);
    let segment = step.arrival.packet.segment;
    let new = if direction.init { start + n - direction.seq } else { n };
    assert(reading.direction() == direction);
    assert(reading.new_data_len() == new);
    assert(crate::tcp_laws::shape(reading.packet) == crate::tcp_laws::shape(step.arrival.packet));
    crate::tcp_laws::lemma_same_header(step.arrival.packet, reading.packet);
    let data = segment.skip(offset);
    assert(reading.packet.segment.skip(segment.len() - new) =~= segment.skip(
        segment.len() - new,
    ));
}

/// Where no byte of a packet comes next, the data handler is not called for it.
#[verifier::spinoff_prover]
#[verifier::rlimit(50)]
pub proof fn law_old_data_is_not_handed_over<NetAddr: NetworkAddr>(
    state: TcpState<NetAddr>,
    step: Step<NetAddr>,
    session: NumberedSessionView<NetAddr>,
    direction: TrackerView,
    port: int,
    seq: int,
    offset: int,
    start: int,
    n: int,
)
    requires
        crate::tcp_laws::valid_state(state),
        step.fits(state),
        state.sessions.contains_key(step.arrival.key()),
        session == state.sessions[step.arrival.key()],
        port == step.arrival.packet.segment[0] * 256 + step.arrival.packet.segment[1],
        seq == step.arrival.packet.segment[4] * 0x100_0000 + step.arrival.packet.segment[5]
            * 0x1_0000 + step.arrival.packet.segment[6] * 0x100 + step.arrival.packet.segment[7],
        offset == step.arrival.packet.segment[12] / 16 * 4,
        direction == if !session.session.src_init || (step.arrival.src_net
            == session.session.src_net && port == session.session.src_port) {
            session.session.client
        } else {
            session.session.server
        },
        start == if step.arrival.packet.segment[13] & 2 == 0 {
            seq
        } else {
            (seq + 1) % 0x1_0000_0000
        },
        step.arrival.packet.segment[13] & 2 == 0 || !direction.init || direction.syn_seq == Some(
            seq as u32,
        ),
        n == step.arrival.packet.segment.len() - offset,
        n == 0 || (direction.init && !(start <= direction.seq < start + n)),
    ensures
        step.own is None,
{
    crate::tcp_laws::lemma_reading(state, step.arrival, step.fresh);
    let reading = step.reading(state);
    assert(reading.direction() == direction);
}

/// A reset ends the connection, whatever else it is: it is no longer followed, and the spy is told of
/// the end on both sides.
#[verifier::spinoff_prover]
#[verifier::rlimit(50)]
pub proof fn law_reset_bit_ends_the_connection<NetAddr: NetworkAddr>(
    state: TcpState<NetAddr>,
    step: Step<NetAddr>,
)
    requires
        crate::tcp_laws::valid_state(state),
        step.fits(state),
        step.arrival.packet.segment[13] & 4 != 0,
    ensures
        ({
            let outcome = step.outcome(state);
            let n = outcome.events.len();
            &&& !outcome.state.sessions.contains_key(step.arrival.key())
            &&& step.kept.len() == 0
            &&& n >= 4
            &&& outcome.events[n - 3] is After
            &&& outcome.events[n - 2] == (TransportEvent::Close {
                is_client: false,
                session_id: outcome.events[n - 3]->After_session_id,
            })
            &&& outcome.events[n - 1] == (TransportEvent::Close {
                is_client: true,
                session_id: outcome.events[n - 3]->After_session_id,
            })
        }),
{
    crate::tcp_laws::lemma_reading(state, step.arrival, step.fresh);
    let reading = step.reading(state);
    crate::tcp_laws::law_reset_ends_connection(
        state,
        step.arrival,
        step.fresh,
        step.own,
        step.kept,
    );
}

/// Without a reset, a SYN that opens another connection, or too many waiting packets, a connection
/// goes on under its number, and no other number is given out.
#[verifier::spinoff_prover]
#[verifier::rlimit(50)]
pub proof fn law_connection_goes_on<NetAddr: NetworkAddr>(
    state: TcpState<NetAddr>,
    step: Step<NetAddr>,
    session: NumberedSessionView<NetAddr>,
    direction: TrackerView,
    port: int,
    seq: int,
)
    requires
        crate::tcp_laws::valid_state(state),
        step.fits(state),
        state.sessions.contains_key(step.arrival.key()),
        session == state.sessions[step.arrival.key()],
        port == step.arrival.packet.segment[0] * 256 + step.arrival.packet.segment[1],
        seq == step.arrival.packet.segment[4] * 0x100_0000 + step.arrival.packet.segment[5]
            * 0x1_0000 + step.arrival.packet.segment[6] * 0x100 + step.arrival.packet.segment[7],
        direction == if !session.session.src_init || (step.arrival.src_net
            == session.session.src_net && port == session.session.src_port) {
            session.session.client
        } else {
            session.session.server
        },
        step.arrival.packet.segment[13] & 2 == 0 || !direction.init || direction.syn_seq == Some(
            seq as u32,
        ),
        step.arrival.packet.segment[13] & 4 == 0,
        direction.queue.len() < 64,
    ensures
        ({
            let outcome = step.outcome(state);
            &&& outcome.state.sessions.contains_key(step.arrival.key())
            &&& outcome.state.sessions[step.arrival.key()].session_id == session.session_id
            &&& outcome.state.sessions[step.arrival.key()].session.created
                == session.session.created
            &&& outcome.state.sessions[step.arrival.key()].session.handshake_done
                == session.session.handshake_done
            &&& outcome.state.id_counter == state.id_counter
            &&& forall|i: int|
                0 <= i < outcome.events.len() ==> !(#[trigger] outcome.events[i] is Close)
        }),
{
    crate::tcp_laws::lemma_reading(state, step.arrival, step.fresh);
    let reading = step.reading(state);
    let outcome = step.outcome(state);
    assert forall|i: int| 0 <= i < outcome.events.len() implies !(
    #[trigger] outcome.events[i] is Close) by {}
}

/// A SYN on an open direction that is not the one that opened it, be its number higher or lower, ends
/// the connection and opens another, under the next number, whose client is the sender: what the old
/// one held back is dropped, and data that comes with the SYN is handed over under the new number.
#[verifier::spinoff_prover]
#[verifier::rlimit(50)]
pub proof fn law_other_syn_opens_another_connection<NetAddr: NetworkAddr>(
    state: TcpState<NetAddr>,
    step: Step<NetAddr>,
    session: NumberedSessionView<NetAddr>,
    direction: TrackerView,
    port: int,
    seq: int,
    offset: int,
    start: int,
    n: int,
)
    requires
        crate::tcp_laws::valid_state(state),
        step.fits(state),
        state.sessions.contains_key(step.arrival.key()),
        session == state.sessions[step.arrival.key()],
        port == step.arrival.packet.segment[0] * 256 + step.arrival.packet.segment[1],
        seq == step.arrival.packet.segment[4] * 0x100_0000 + step.arrival.packet.segment[5]
            * 0x1_0000 + step.arrival.packet.segment[6] * 0x100 + step.arrival.packet.segment[7],
        offset == step.arrival.packet.segment[12] / 16 * 4,
        direction == if !session.session.src_init || (step.arrival.src_net
            == session.session.src_net && port == session.session.src_port) {
            session.session.client
        } else {
            session.session.server
        },
        start == if step.arrival.packet.segment[13] & 2 == 0 {
            seq
        } else {
            (seq + 1) % 0x1_0000_0000
        },
        state.id_counter < u64::MAX,
        step.arrival.packet.segment[13] & 2 != 0,
        direction.init,
        direction.syn_seq != Some(seq as u32),
        n == step.arrival.packet.segment.len() - offset,
    ensures
        ({
            let outcome = step.outcome(state);
            let waiting = session.session.client.queue + session.session.server.queue;
            let after = outcome.state.sessions[step.arrival.key()];
            &&& outcome.state.id_counter == state.id_counter + 1
            &&& outcome.state.last_is_client
            &&& waiting.len() < outcome.verdicts.len()
            &&& forall|i: int|
                0 <= i < waiting.len() ==> #[trigger] outcome.verdicts[i] == VerdictView::Drop(
                    waiting[i],
                )
            &&& step.kept.len() == 0
            &&& n > 0 ==> {
                &&& step.own matches Some(call)
                &&& call.session_id == state.id_counter
                &&& call.is_client
                &&& call.counter == seq
                &&& call.data == step.arrival.packet.segment.skip(offset)
            }
            &&& step.arrival.packet.segment[13] & 4 == 0 ==> {
                &&& outcome.state.sessions.contains_key(step.arrival.key())
                &&& after.session_id == state.id_counter
                &&& after.session.src_init
                &&& after.session.src_net == step.arrival.src_net
                &&& after.session.src_port == port
                &&& after.session.client.init
                &&& after.session.client.syn_seq == Some(seq as u32)
                &&& after.session.client.seq == (start + n) % 0x1_0000_0000
                &&& after.session.client.queue.len() == 0
                &&& !after.session.server.init
                &&& after.session.server.queue.len() == 0
            }
        }),
{
    crate::tcp_laws::lemma_reading(state, step.arrival, step.fresh);
    let reading = step.reading(state);
    lemma_opened(state, step, seq, offset, start, n);
    let outcome = step.outcome(state);
    let waiting = session.session.client.queue + session.session.server.queue;
    assert forall|i: int| 0 <= i < waiting.len() implies #[trigger] outcome.verdicts[i]
        == VerdictView::Drop(waiting[i]) by {}
}

/// The first packet between two ends opens a connection under the next number, whose client is the
/// sender; its data is handed over under that number.
#[verifier::spinoff_prover]
#[verifier::rlimit(50)]
pub proof fn law_first_packet_opens_a_connection<NetAddr: NetworkAddr>(
    state: TcpState<NetAddr>,
    step: Step<NetAddr>,
    port: int,
    seq: int,
    offset: int,
    start: int,
    n: int,
)
    requires
        crate::tcp_laws::valid_state(state),
        step.fits(state),
        !state.sessions.contains_key(step.arrival.key()),
        state.id_counter < u64::MAX,
        port == step.arrival.packet.segment[0] * 256 + step.arrival.packet.segment[1],
        seq == step.arrival.packet.segment[4] * 0x100_0000 + step.arrival.packet.segment[5]
            * 0x1_0000 + step.arrival.packet.segment[6] * 0x100 + step.arrival.packet.segment[7],
        offset == step.arrival.packet.segment[12] / 16 * 4,
        start == if step.arrival.packet.segment[13] & 2 == 0 {
            seq
        } else {
            (seq + 1) % 0x1_0000_0000
        },
        n == step.arrival.packet.segment.len() - offset,
    ensures
        ({
            let outcome = step.outcome(state);
            let after = outcome.state.sessions[step.arrival.key()];
            &&& outcome.state.id_counter == state.id_counter + 1
            &&& outcome.state.last_is_client
            &&& step.kept.len() == 0
            &&& n == 0 ==> step.own is None
            &&& n > 0 ==> {
                &&& step.own matches Some(call)
                &&& call.session_id == state.id_counter
                &&& call.is_client
                &&& call.counter == seq
                &&& call.data == step.arrival.packet.segment.skip(offset)
            }
            &&& outcome.verdicts.len() == 1
            &&& step.arrival.packet.segment[13] & 4 == 0 ==> {
                &&& outcome.state.sessions.contains_key(step.arrival.key())
                &&& after.session_id == state.id_counter
                &&& after.session.src_init
                &&& after.session.src_net == step.arrival.src_net
                &&& after.session.src_port == port
                &&& after.session.client.init
                &&& after.session.client.syn_seq == if step.arrival.packet.segment[13] & 2 == 0 {
                    None
                } else {
                    Some(seq as u32)
                }
                &&& after.session.client.seq == (start + n) % 0x1_0000_0000
                &&& after.session.client.queue.len() == 0
                &&& !after.session.server.init
                &&& after.session.server.queue.len() == 0
            }
        }),
{
    crate::tcp_laws::lemma_reading(state, step.arrival, step.fresh);
    let reading = step.reading(state);
    lemma_opened(state, step, seq, offset, start, n);
}

/// Data right behind the SYN that opens another connection is handed over under the number of that
/// connection.
#[verifier::spinoff_prover]
#[verifier::rlimit(50)]
pub proof fn law_data_behind_a_syn_belongs_to_its_connection<NetAddr: NetworkAddr>(
    state: TcpState<NetAddr>,
    step: Step<NetAddr>,
    session: NumberedSessionView<NetAddr>,
    direction: TrackerView,
    port: int,
    seq: int,
    offset: int,
    start: int,
    n: int,
    next: Step<NetAddr>,
    next_port: int,
    next_seq: int,
    next_offset: int,
)
    requires
        crate::tcp_history::waits_rightly(state),
        crate::tcp_laws::valid_state(state),
        step.fits(state),
        state.sessions.contains_key(step.arrival.key()),
        session == state.sessions[step.arrival.key()],
        port == step.arrival.packet.segment[0] * 256 + step.arrival.packet.segment[1],
        seq == step.arrival.packet.segment[4] * 0x100_0000 + step.arrival.packet.segment[5]
            * 0x1_0000 + step.arrival.packet.segment[6] * 0x100 + step.arrival.packet.segment[7],
        offset == step.arrival.packet.segment[12] / 16 * 4,
        direction == if !session.session.src_init || (step.arrival.src_net
            == session.session.src_net && port == session.session.src_port) {
            session.session.client
        } else {
            session.session.server
        },
        start == if step.arrival.packet.segment[13] & 2 == 0 {
            seq
        } else {
            (seq + 1) % 0x1_0000_0000
        },
        state.id_counter < u64::MAX,
        step.arrival.packet.segment[13] & 2 != 0,
        direction.init,
        direction.syn_seq != Some(seq as u32),
        n == step.arrival.packet.segment.len() - offset,
        step.arrival.packet.segment[13] & 4 == 0,
        next.fits(step.outcome(state).state),
        next.arrival.key() == step.arrival.key(),
        next.arrival.src_net == step.arrival.src_net,
        next_port == next.arrival.packet.segment[0] * 256 + next.arrival.packet.segment[1],
        next_port == port,
        next_seq == next.arrival.packet.segment[4] * 0x100_0000 + next.arrival.packet.segment[5]
            * 0x1_0000 + next.arrival.packet.segment[6] * 0x100 + next.arrival.packet.segment[7],
        next_seq == (start + n) % 0x1_0000_0000,
        next_offset == next.arrival.packet.segment[12] / 16 * 4,
        next.arrival.packet.segment[13] & 2 == 0,
        next.arrival.packet.segment.len() > next_offset,
    ensures
        next.own matches Some(call) && call.session_id == state.id_counter && call.is_client
            && call.counter == next_seq && call.data == next.arrival.packet.segment.skip(
            next_offset,
        ),
{
    law_other_syn_opens_another_connection(
        state,
        step,
        session,
        direction,
        port,
        seq,
        offset,
        start,
        n,
    );
    crate::tcp_history::law_only_later_packets_wait(state, step);
    let middle = step.outcome(state).state;
    let opened = middle.sessions[step.arrival.key()];
    let m = next.arrival.packet.segment.len() - next_offset;
    law_new_data_is_handed_over(
        middle,
        next,
        opened,
        opened.session.client,
        next_port,
        next_seq,
        next_offset,
        next_seq,
        m,
    );
    law_sender_tells_the_side(middle, next, opened, opened.session.client, next_port, next_seq);
}

/// What holding a packet against an open connection finds.
#[verifier::spinoff_prover]
#[verifier::rlimit(50)]
pub proof fn lemma_open<NetAddr: NetworkAddr>(
    state: TcpState<NetAddr>,
    step: Step<NetAddr>,
    session: NumberedSessionView<NetAddr>,
    direction: TrackerView,
    port: int,
    seq: int,
    offset: int,
    start: int,
)
    requires
        crate::tcp_laws::valid_state(state),
        step.fits(state),
        state.sessions.contains_key(step.arrival.key()),
        session == state.sessions[step.arrival.key()],
        port == step.arrival.packet.segment[0] * 256 + step.arrival.packet.segment[1],
        seq == step.arrival.packet.segment[4] * 0x100_0000 + step.arrival.packet.segment[5]
            * 0x1_0000 + step.arrival.packet.segment[6] * 0x100 + step.arrival.packet.segment[7],
        offset == step.arrival.packet.segment[12] / 16 * 4,
        direction == if !session.session.src_init || (step.arrival.src_net
            == session.session.src_net && port == session.session.src_port) {
            session.session.client
        } else {
            session.session.server
        },
        start == if step.arrival.packet.segment[13] & 2 == 0 {
            seq
        } else {
            (seq + 1) % 0x1_0000_0000
        },
        step.arrival.packet.segment[13] & 2 == 0 || !direction.init || direction.syn_seq == Some(
            seq as u32,
        ),
    ensures
        ({
            let reading = step.reading(state);
            let segment = step.arrival.packet.segment;
            &&& reading.direction() == direction
            &&& reading.session.session_id == session.session_id
            &&& reading.input.tracker_wind_input == direction.plunged(
                segment[13],
                seq as u32,
                segment.len() - offset,
            )
            &&& !reading.input.tracker_wind_input.result.new_connection
            &&& reading.packet == (PacketView {
                segment: segment.take(offset) + direction.rewritten(
                    start as u32,
                    segment.skip(offset),
                ),
                ..step.arrival.packet
            })
            &&& crate::tcp_laws::valid_session(reading.session)
            &&& crate::tcp_laws::valid_packet(reading.packet)
            &&& reading.new_data_len() <= crate::tcp_tracker::data_of(
                reading.packet.segment,
            ).len()
            &&& crate::tcp_laws::shape(reading.packet) == crate::tcp_laws::shape(
                step.arrival.packet,
            )
            &&& reading.verdicts.len() == 0
            &&& direction.valid()
            &&& start == crate::tcp_tracker::start_seq(segment[13], seq as u32)
        }),
{
    crate::tcp_laws::lemma_reading(state, step.arrival, step.fresh);
}

/// A byte of data, where the bytes that are remembered are in place.
proof fn lemma_rewritten_byte(direction: TrackerView, start: u32, data: Seq<u8>, place: int)
    requires
        direction.valid(),
        0 <= place < data.len(),
    ensures
        direction.rewritten(start, data).len() == data.len(),
        ({
            let back = if direction.init { direction.seq - start } else { 0 };
            direction.rewritten(start, data)[place] == if place < back <= 65536 && back - place
                <= direction.seen {
                direction.past[65536 - (back - place)]
            } else {
                data[place]
            }
        }),
{
}

/// A byte of a packet that is not held back.
#[verifier::spinoff_prover]
#[verifier::rlimit(50)]
proof fn lemma_settled_byte<NetAddr: NetworkAddr>(
    reading: Reading<NetAddr>,
    own: Option<DataCall>,
    i: int,
)
    requires
        reading.own_call_fits(own),
        reading.new_data_len() <= reading.packet.segment.len(),
        0 <= i < reading.packet.segment.len(),
    ensures
        ({
            let packet = reading.settled(own).packet;
            let n = reading.packet.segment.len();
            &&& packet.ident == reading.packet.ident
            &&& packet.net_header == reading.packet.net_header
            &&& packet.segment.len() == n
            &&& packet.segment[i] == match own {
                Some(call) => if i >= n - call.out.len() {
                    call.out[i - (n - call.out.len())]
                } else {
                    reading.packet.segment[i]
                },
                None => reading.packet.segment[i],
            }
        }),
{
}

/// The stream of a packet that is not held back, before others are let go.
#[verifier::spinoff_prover]
#[verifier::rlimit(50)]
pub proof fn lemma_settled_stream<NetAddr: NetworkAddr>(
    reading: Reading<NetAddr>,
    own: Option<DataCall>,
    handed: Seq<u8>,
)
    requires
        valid_for(reading),
        reading.own_call_fits(own),
        !reading.is_future(),
        handed == match own {
            Some(call) => call.out,
            None => seq![],
        },
    ensures
        ({
            let direction = reading.direction();
            let input = reading.input.tracker_wind_input;
            let settled = crate::tcp_step::settled_direction(reading, own);
            let base = if direction.init { direction.seq } else { input.start_seq };
            let seen = direction.seen + handed.len();
            &&& settled.init
            &&& settled.seq == (base + handed.len()) % 0x1_0000_0000
            &&& settled.past == (direction.past + handed).skip(handed.len() as int)
            &&& settled.seen == if seen < 65536 { seen } else { 65536 }
            &&& settled.syn_seq == if direction.init { direction.syn_seq } else { input.syn_seq }
        }),
{
    let direction = reading.direction();
    let settled = crate::tcp_step::settled_direction(reading, own);
    assert(settled.past =~= (direction.past + handed).skip(handed.len() as int));
}

/// What is known of a packet that was held against its connection.
pub open spec fn valid_for<NetAddr: NetworkAddr>(reading: Reading<NetAddr>) -> bool {
    &&& crate::tcp_laws::valid_session(reading.session)
    &&& crate::tcp_laws::valid_packet(reading.packet)
    &&& reading.new_data_len() <= crate::tcp_tracker::data_of(reading.packet.segment).len()
    &&& !reading.input.tracker_wind_input.result.new_connection
}

/// What comes of a packet that is not held back, and whose connection goes on.
#[verifier::spinoff_prover]
#[verifier::rlimit(50)]
proof fn lemma_left<NetAddr: NetworkAddr>(state: TcpState<NetAddr>, step: Step<NetAddr>)
    requires
        step.fits(state),
        !(step.outcome(state).verdicts.last() is Keep),
        step.outcome(state).state.sessions.contains_key(step.arrival.key()),
    ensures
        ({
            let reading = step.reading(state);
            let outcome = step.outcome(state);
            let session = outcome.state.sessions[step.arrival.key()].session;
            let settled = crate::tcp_step::settled_direction(reading, step.own);
            let after = if outcome.state.last_is_client {
                session.client
            } else {
                session.server
            };
            &&& !reading.keeps()
            &&& !reading.is_future()
            &&& reading.own_call_fits(step.own)
            &&& after == crate::tcp_step::let_go_direction(settled, step.kept)
            &&& crate::tcp_step::let_go_calls_fit(
                settled,
                step.kept,
                reading.input.is_client,
                reading.session.session_id,
            )
        }),
{
}

/// What comes of a packet that lets others go.
#[verifier::spinoff_prover]
#[verifier::rlimit(50)]
proof fn lemma_let_go_left<NetAddr: NetworkAddr>(state: TcpState<NetAddr>, step: Step<NetAddr>)
    requires
        step.fits(state),
        step.kept.len() > 0,
        step.reading(state).verdicts.len() == 0,
    ensures
        ({
            let reading = step.reading(state);
            let outcome = step.outcome(state);
            let settled = crate::tcp_step::settled_direction(reading, step.own);
            let packets = crate::tcp_step::let_go_packets(settled, step.kept);
            &&& !reading.is_future()
            &&& reading.own_call_fits(step.own)
            &&& crate::tcp_step::let_go_calls_fit(
                settled,
                step.kept,
                reading.input.is_client,
                reading.session.session_id,
            )
            &&& outcome.state.last_is_client == reading.input.is_client
            &&& outcome.verdicts.len() == packets.len() + 1
            &&& forall|i: int|
                0 <= i < packets.len() ==> #[trigger] outcome.verdicts[i] == VerdictView::Accept(
                    packets[i],
                )
        }),
{
    let reading = step.reading(state);
    let settled = crate::tcp_step::settled_direction(reading, step.own);
    let packets = crate::tcp_step::let_go_packets(settled, step.kept);
    let outcome = step.outcome(state);
    assert forall|i: int| 0 <= i < packets.len() implies #[trigger] outcome.verdicts[i]
        == VerdictView::Accept(packets[i]) by {
        assert(crate::tcp_step::all_accepted(packets)[i] == VerdictView::Accept(packets[i]));
    }
}

/// A packet that is let go, and the call for it.
#[verifier::spinoff_prover]
#[verifier::rlimit(50)]
proof fn lemma_let_go_packet(
    direction: TrackerView,
    calls: Seq<DataCall>,
    is_client: bool,
    id: u64,
    i: int,
)
    requires
        direction.valid(),
        crate::tcp_step::let_go_calls_fit(direction, calls, is_client, id),
        0 <= i < calls.len(),
    ensures
        ({
            let packets = crate::tcp_step::let_go_packets(direction, calls);
            let call = calls[i];
            let segment = packets[i].segment;
            let new = call.out.len() as int;
            let earlier = calls.take(i).map_values(|call: DataCall| call.out).flatten();
            &&& packets.len() == calls.len()
            &&& segment.skip(segment.len() - new) == call.out
            &&& call.data.len() == new
            &&& segment[12] / 16 * 4 + new <= segment.len()
            &&& call.counter == (segment[4] * 0x100_0000 + segment[5] * 0x1_0000 + segment[6]
                * 0x100 + segment[7] + segment.len() - segment[12] / 16 * 4 - new)
                % 0x1_0000_0000
            &&& call.session_id == id
            &&& call.is_client == is_client
            &&& new > 0 && segment[13] & 2 == 0 ==> call.counter == (direction.seq + earlier.len())
                % 0x1_0000_0000
        }),
{
    let held = lemma_let_go_call(direction, calls, is_client, id, i);
    crate::tcp_laws::lemma_let_go(direction, calls, is_client, id);
    let call = calls[i];
    let packet = crate::tcp_step::let_go_packets(direction, calls)[i];
    let segment = packet.segment;
    crate::tcp_laws::lemma_new_data_shape(held, call.out);
    assert(segment.skip(segment.len() - call.out.len()) =~= call.out);
    let header = crate::tcp_tracker::header_of(held.segment);
    assert(header == crate::tcp_tracker::header_of(segment));
    assert forall|j: int| 0 <= j < 14 implies held.segment[j] == segment[j] by {
        assert(header[j] == held.segment[j]);
        assert(crate::tcp_tracker::header_of(segment)[j] == segment[j]);
    }
    if call.out.len() > 0 && segment[13] & 2 == 0 {
        crate::tcp_laws::lemma_let_go_in_order(direction, calls, is_client, id, i);
        let earlier = calls.take(i);
        crate::tcp_tracker_laws::lemma_joined_is_flat(crate::tcp_step::outs(earlier));
        assert(crate::tcp_step::outs(earlier) =~= earlier.map_values(|call: DataCall| call.out));
    }
}

/// A packet that is let go with one that is not held back.
#[verifier::spinoff_prover]
#[verifier::rlimit(50)]
proof fn lemma_let_go_reading<NetAddr: NetworkAddr>(
    reading: Reading<NetAddr>,
    own: Option<DataCall>,
    kept: Seq<DataCall>,
    i: int,
)
    requires
        valid_for(reading),
        reading.own_call_fits(own),
        !reading.is_future(),
        crate::tcp_step::let_go_calls_fit(
            crate::tcp_step::settled_direction(reading, own),
            kept,
            reading.input.is_client,
            reading.session.session_id,
        ),
        0 <= i < kept.len(),
    ensures
        ({
            let direction = reading.direction();
            let settled = crate::tcp_step::settled_direction(reading, own);
            let packets = crate::tcp_step::let_go_packets(settled, kept);
            let call = kept[i];
            let segment = packets[i].segment;
            let new = call.out.len() as int;
            let base = if direction.init {
                direction.seq
            } else {
                reading.input.tracker_wind_input.start_seq
            };
            let before = match own {
                Some(call) => call.out.len() as int,
                None => 0,
            };
            let earlier = kept.take(i).map_values(|call: DataCall| call.out).flatten();
            &&& packets.len() == kept.len()
            &&& segment.skip(segment.len() - new) == call.out
            &&& call.data.len() == new
            &&& segment[12] / 16 * 4 + new <= segment.len()
            &&& call.counter == (segment[4] * 0x100_0000 + segment[5] * 0x1_0000 + segment[6]
                * 0x100 + segment[7] + segment.len() - segment[12] / 16 * 4 - new)
                % 0x1_0000_0000
            &&& call.session_id == reading.session.session_id
            &&& call.is_client == reading.input.is_client
            &&& new > 0 && segment[13] & 2 == 0 ==> call.counter == (base + before
                + earlier.len()) % 0x1_0000_0000
        }),
{
    let settled = crate::tcp_step::settled_direction(reading, own);
    let out = match own {
        Some(call) => call.out,
        None => seq![],
    };
    assert(settled.valid()) by {
        crate::tcp_laws::lemma_settled(reading, own);
    }
    lemma_settled_stream(reading, own, out);
    lemma_let_go_packet(
        settled,
        kept,
        reading.input.is_client,
        reading.session.session_id,
        i,
    );
    let direction = reading.direction();
    let base = if direction.init {
        direction.seq
    } else {
        reading.input.tracker_wind_input.start_seq
    };
    let earlier = kept.take(i).map_values(|call: DataCall| call.out).flatten();
    crate::tcp_laws::lemma_seq_plus_twice(base, out.len() as int, earlier.len() as int);
}

proof fn lemma_streams_add(past: Seq<u8>, a: Seq<u8>, b: Seq<u8>)
    ensures
        ((past + a).skip(a.len() as int) + b).skip(b.len() as int) == (past + (a + b)).skip(
            (a + b).len() as int,
        ),
{
    assert(((past + a).skip(a.len() as int) + b).skip(b.len() as int) =~= (past + (a + b)).skip(
        (a + b).len() as int,
    ));
}

/// The packet that the last verdict is about.
#[verifier::spinoff_prover]
#[verifier::rlimit(50)]
proof fn lemma_last_packet<NetAddr: NetworkAddr>(
    state: TcpState<NetAddr>,
    step: Step<NetAddr>,
    packet: PacketView,
)
    requires
        step.fits(state),
        step.outcome(state).verdicts.last() == VerdictView::Accept(packet)
            || step.outcome(state).verdicts.last() == VerdictView::Drop(packet),
    ensures
        step.reading(state).own_call_fits(step.own),
        packet == step.reading(state).settled(step.own).packet,
{
    let reading = step.reading(state);
    assert(!reading.keeps());
    let leaving = crate::tcp_step::leaving_verdicts(reading, step.own, step.kept);
    assert(step.outcome(state).verdicts.last() == leaving.last());
}

/// Byte by byte, what the packet that arrived leaves with: its header as it was; of its data, what
/// the stream remembers where it remembers, what the data handler made of it where it is new, and
/// what it arrived with elsewhere.
#[verifier::spinoff_prover]
#[verifier::rlimit(50)]
pub proof fn law_bytes_of_a_leaving_packet<NetAddr: NetworkAddr>(
    state: TcpState<NetAddr>,
    step: Step<NetAddr>,
    session: NumberedSessionView<NetAddr>,
    direction: TrackerView,
    port: int,
    seq: int,
    offset: int,
    start: int,
    n: int,
    packet: PacketView,
    i: int,
)
    requires
        crate::tcp_laws::valid_state(state),
        step.fits(state),
        state.sessions.contains_key(step.arrival.key()),
        session == state.sessions[step.arrival.key()],
        port == step.arrival.packet.segment[0] * 256 + step.arrival.packet.segment[1],
        seq == step.arrival.packet.segment[4] * 0x100_0000 + step.arrival.packet.segment[5]
            * 0x1_0000 + step.arrival.packet.segment[6] * 0x100 + step.arrival.packet.segment[7],
        offset == step.arrival.packet.segment[12] / 16 * 4,
        direction == if !session.session.src_init || (step.arrival.src_net
            == session.session.src_net && port == session.session.src_port) {
            session.session.client
        } else {
            session.session.server
        },
        start == if step.arrival.packet.segment[13] & 2 == 0 {
            seq
        } else {
            (seq + 1) % 0x1_0000_0000
        },
        step.arrival.packet.segment[13] & 2 == 0 || !direction.init || direction.syn_seq == Some(
            seq as u32,
        ),
        n == step.arrival.packet.segment.len() - offset,
        step.outcome(state).verdicts.last() == VerdictView::Accept(packet)
            || step.outcome(state).verdicts.last() == VerdictView::Drop(packet),
        0 <= i < step.arrival.packet.segment.len(),
    ensures
        ({
            let arrived = step.arrival.packet;
            let back = if direction.init { direction.seq - start } else { 0 };
            let new = match step.own {
                Some(call) => call.out.len() as int,
                None => 0,
            };
            let place = i - offset;
            &&& packet.ident == arrived.ident
            &&& packet.net_header == arrived.net_header
            &&& packet.segment.len() == arrived.segment.len()
            &&& packet.segment[i] == if place >= n - new && place >= 0 {
                step.own->Some_0.out[place - (n - new)]
            } else if place >= 0 && place < back <= 65536 && back - place <= direction.seen {
                direction.past[65536 - (back - place)]
            } else {
                arrived.segment[i]
            }
        }),
{
    lemma_open(state, step, session, direction, port, seq, offset, start);
    let reading = step.reading(state);
    let segment = step.arrival.packet.segment;
    lemma_last_packet(state, step, packet);
    lemma_settled_byte(reading, step.own, i);
    let data = segment.skip(offset);
    if i >= offset {
        lemma_rewritten_byte(direction, start as u32, data, i - offset);
    }
}

/// What the packets that are let go add to the stream.
#[verifier::spinoff_prover]
#[verifier::rlimit(50)]
proof fn lemma_let_go_stream(
    direction: TrackerView,
    calls: Seq<DataCall>,
    is_client: bool,
    id: u64,
)
    requires
        direction.valid(),
        crate::tcp_step::let_go_calls_fit(direction, calls, is_client, id),
    ensures
        ({
            let after = crate::tcp_step::let_go_direction(direction, calls);
            let handed = crate::tcp_tracker::joined(crate::tcp_step::outs(calls));
            let seen = direction.seen + handed.len();
            &&& after.init == direction.init
            &&& after.syn_seq == direction.syn_seq
            &&& after.seq == (direction.seq + handed.len()) % 0x1_0000_0000
            &&& after.past == (direction.past + handed).skip(handed.len() as int)
            &&& after.seen == if seen < 65536 { seen } else { 65536 }
        }),
    decreases calls.len(),
{
    let n = direction.releases(0).len() as int;
    let handed = crate::tcp_tracker::joined(crate::tcp_step::outs(calls));
    let after = crate::tcp_step::let_go_direction(direction, calls);
    if n == 0 {
        assert(handed =~= seq![]);
        assert(after.past =~= (direction.past + handed).skip(handed.len() as int));
    } else {
        let first = calls.take(n);
        let rest = calls.skip(n);
        let over = crate::tcp_step::round_over(direction, first);
        let a = crate::tcp_tracker::joined(crate::tcp_step::outs(first));
        let b = crate::tcp_tracker::joined(crate::tcp_step::outs(rest));
        crate::tcp_laws::lemma_round(direction, first, is_client, id);
        crate::tcp_laws::lemma_release_total_fits(direction, 0);
        crate::tcp_laws::lemma_joined_len(first, direction.releases(0), is_client, id);
        lemma_let_go_stream(over, rest, is_client, id);
        assert(handed == a + b) by {
            assert(crate::tcp_step::outs(calls) =~= crate::tcp_step::outs(first)
                + crate::tcp_step::outs(rest));
            crate::tcp_laws::lemma_joined_join(
                crate::tcp_step::outs(first),
                crate::tcp_step::outs(rest),
            );
        }
        assert(over.past == direction.past.skip(a.len() as int) + a);
        assert(after.past =~= (direction.past + handed).skip(handed.len() as int));
        crate::tcp_laws::lemma_seq_plus_twice(direction.seq, a.len() as int, b.len() as int);
    }
}

/// A stream holds what the data handler made of its data, in the order in which it was handed over:
/// first that of the packet that arrived, then that of the packets that it let go.
#[verifier::spinoff_prover]
#[verifier::rlimit(50)]
pub proof fn law_stream_grows_by_what_was_handed_over<NetAddr: NetworkAddr>(
    state: TcpState<NetAddr>,
    step: Step<NetAddr>,
    session: NumberedSessionView<NetAddr>,
    direction: TrackerView,
    port: int,
    seq: int,
    offset: int,
    start: int,
    handed: Seq<u8>,
)
    requires
        crate::tcp_laws::valid_state(state),
        step.fits(state),
        state.sessions.contains_key(step.arrival.key()),
        session == state.sessions[step.arrival.key()],
        port == step.arrival.packet.segment[0] * 256 + step.arrival.packet.segment[1],
        seq == step.arrival.packet.segment[4] * 0x100_0000 + step.arrival.packet.segment[5]
            * 0x1_0000 + step.arrival.packet.segment[6] * 0x100 + step.arrival.packet.segment[7],
        offset == step.arrival.packet.segment[12] / 16 * 4,
        direction == if !session.session.src_init || (step.arrival.src_net
            == session.session.src_net && port == session.session.src_port) {
            session.session.client
        } else {
            session.session.server
        },
        start == if step.arrival.packet.segment[13] & 2 == 0 {
            seq
        } else {
            (seq + 1) % 0x1_0000_0000
        },
        step.arrival.packet.segment[13] & 2 == 0 || !direction.init || direction.syn_seq == Some(
            seq as u32,
        ),
        step.outcome(state).state.sessions.contains_key(step.arrival.key()),
        !(step.outcome(state).verdicts.last() is Keep),
        handed == match step.own {
            Some(call) => call.out,
            None => seq![],
        } + step.kept.map_values(|call: DataCall| call.out).flatten(),
    ensures
        ({
            let outcome = step.outcome(state);
            let session = outcome.state.sessions[step.arrival.key()].session;
            let after = if outcome.state.last_is_client {
                session.client
            } else {
                session.server
            };
            let base = if direction.init { direction.seq as int } else { start };
            let seen = direction.seen + handed.len();
            &&& after.init
            &&& after.seq == (base + handed.len()) % 0x1_0000_0000
            &&& after.past == (direction.past + handed).skip(handed.len() as int)
            &&& after.seen == if seen < 65536 { seen } else { 65536 }
            &&& after.syn_seq == if direction.init {
                direction.syn_seq
            } else if step.arrival.packet.segment[13] & 2 == 0 {
                None
            } else {
                Some(seq as u32)
            }
        }),
{
    lemma_open(state, step, session, direction, port, seq, offset, start);
    let reading = step.reading(state);
    lemma_left(state, step);
    let is_client = reading.input.is_client;
    let id = reading.session.session_id;
    let settled = crate::tcp_step::settled_direction(reading, step.own);
    let own = match step.own {
        Some(call) => call.out,
        None => seq![],
    };
    crate::tcp_laws::lemma_settled(reading, step.own);
    lemma_settled_stream(reading, step.own, own);
    lemma_let_go_stream(settled, step.kept, is_client, id);
    crate::tcp_tracker_laws::lemma_joined_is_flat(crate::tcp_step::outs(step.kept));
    assert(crate::tcp_step::outs(step.kept) =~= step.kept.map_values(|call: DataCall| call.out));
    let later = crate::tcp_tracker::joined(crate::tcp_step::outs(step.kept));
    lemma_streams_add(direction.past, own, later);
    let base: u32 = if direction.init { direction.seq } else { start as u32 };
    crate::tcp_laws::lemma_seq_plus_twice(base, own.len() as int, later.len() as int);
}

/// A packet that is let go is accepted with what the data handler made of its new data, which was
/// handed over under the number that its header gives, on the side and under the number of its
/// connection; and its new data comes right behind what was handed over before.
#[verifier::spinoff_prover]
#[verifier::rlimit(50)]
pub proof fn law_packet_that_is_let_go<NetAddr: NetworkAddr>(
    state: TcpState<NetAddr>,
    step: Step<NetAddr>,
    session: NumberedSessionView<NetAddr>,
    direction: TrackerView,
    port: int,
    seq: int,
    offset: int,
    start: int,
    i: int,
)
    requires
        crate::tcp_laws::valid_state(state),
        step.fits(state),
        state.sessions.contains_key(step.arrival.key()),
        session == state.sessions[step.arrival.key()],
        port == step.arrival.packet.segment[0] * 256 + step.arrival.packet.segment[1],
        seq == step.arrival.packet.segment[4] * 0x100_0000 + step.arrival.packet.segment[5]
            * 0x1_0000 + step.arrival.packet.segment[6] * 0x100 + step.arrival.packet.segment[7],
        offset == step.arrival.packet.segment[12] / 16 * 4,
        direction == if !session.session.src_init || (step.arrival.src_net
            == session.session.src_net && port == session.session.src_port) {
            session.session.client
        } else {
            session.session.server
        },
        start == if step.arrival.packet.segment[13] & 2 == 0 {
            seq
        } else {
            (seq + 1) % 0x1_0000_0000
        },
        step.arrival.packet.segment[13] & 2 == 0 || !direction.init || direction.syn_seq == Some(
            seq as u32,
        ),
        0 <= i < step.kept.len(),
    ensures
        ({
            let outcome = step.outcome(state);
            let call = step.kept[i];
            let new = call.out.len() as int;
            let base = if direction.init { direction.seq as int } else { start };
            let own = match step.own {
                Some(call) => call.out.len() as int,
                None => 0,
            };
            let earlier = step.kept.take(i).map_values(|call: DataCall| call.out).flatten();
            &&& outcome.verdicts.len() == step.kept.len() + 1
            &&& outcome.verdicts[i] matches VerdictView::Accept(packet)
            &&& packet.segment.skip(packet.segment.len() - new) == call.out
            &&& call.data.len() == new
            &&& packet.segment[12] / 16 * 4 + new <= packet.segment.len()
            &&& call.counter == (packet.segment[4] * 0x100_0000 + packet.segment[5] * 0x1_0000
                + packet.segment[6] * 0x100 + packet.segment[7] + packet.segment.len()
                - packet.segment[12] / 16 * 4 - new) % 0x1_0000_0000
            &&& call.session_id == session.session_id
            &&& call.is_client == outcome.state.last_is_client
            &&& new > 0 && packet.segment[13] & 2 == 0 ==> call.counter == (base + own
                + earlier.len()) % 0x1_0000_0000
        }),
{
    lemma_open(state, step, session, direction, port, seq, offset, start);
    lemma_let_go_left(state, step);
    lemma_let_go_reading(step.reading(state), step.own, step.kept, i);
}

/// No packet waits without need: those that still wait on either side of a connection are ahead of
/// their stream, by up to 65536 bytes.
#[verifier::spinoff_prover]
#[verifier::rlimit(50)]
pub proof fn law_waiting_packets_are_ahead<NetAddr: NetworkAddr>(
    state: TcpState<NetAddr>,
    step: Step<NetAddr>,
    key: crate::sessions::NetAddrPair<NetAddr>,
    direction: TrackerView,
    i: int,
    seq: int,
)
    requires
        crate::tcp_history::waits_rightly(state),
        step.fits(state),
        step.outcome(state).state.sessions.contains_key(key),
        direction == step.outcome(state).state.sessions[key].session.client || direction
            == step.outcome(state).state.sessions[key].session.server,
        0 <= i < direction.queue.len(),
        seq == direction.queue[i].segment[4] * 0x100_0000 + direction.queue[i].segment[5]
            * 0x1_0000 + direction.queue[i].segment[6] * 0x100 + direction.queue[i].segment[7],
    ensures
        direction.init,
        ({
            let start = if direction.queue[i].segment[13] & 2 == 0 {
                seq
            } else {
                (seq + 1) % 0x1_0000_0000
            };
            1 <= start - direction.seq <= 65536
        }),
{
    crate::tcp_history::law_only_later_packets_wait(state, step);
    assert(crate::tcp_history::session_waits_rightly(
        step.outcome(state).state.sessions[key],
    ));
    assert(crate::tcp_laws::valid_session(step.outcome(state).state.sessions[key]));
    assert(crate::tcp_laws::only_later_waits(direction));
    assert(direction.is_ahead(crate::tcp_tracker::start_of(direction.queue[i].segment)));
}

/// The spy is shown the packet that arrives, and then each packet that leaves, in the order of the
/// verdicts, as it leaves and with what was decided about it; and the end of a connection last.
#[verifier::spinoff_prover]
#[verifier::rlimit(50)]
pub proof fn law_spy_is_shown_what_leaves<NetAddr: NetworkAddr>(
    state: TcpState<NetAddr>,
    step: Step<NetAddr>,
    offset: int,
)
    requires
        crate::tcp_laws::valid_state(state),
        step.fits(state),
        offset == step.arrival.packet.segment[12] / 16 * 4,
    ensures
        ({
            let outcome = step.outcome(state);
            let arrived = step.arrival.packet;
            let key = step.arrival.key();
            let n = if outcome.verdicts == seq![VerdictView::Keep] {
                0
            } else {
                outcome.verdicts.len() as int
            };
            &&& outcome.events.len() >= 1 + n
            &&& outcome.events[0] == (TransportEvent::Before {
                net_header: arrived.net_header,
                transport_header: arrived.segment.take(offset),
                data: arrived.segment.skip(offset),
                session_id: if state.sessions.contains_key(key) {
                    state.sessions[key].session_id
                } else {
                    state.id_counter
                },
            })
            &&& forall|i: int|
                0 <= i < n ==> is_shown(outcome.events[1 + i], #[trigger] outcome.verdicts[i])
            &&& forall|i: int|
                1 + n <= i < outcome.events.len() ==> #[trigger] outcome.events[i] is Close
            &&& outcome.events.len() == 1 + n || outcome.events.len() == 3 + n
            &&& outcome.events.len() == 3 + n <==> !outcome.state.sessions.contains_key(key)
        }),
{
    crate::tcp_laws::lemma_reading(state, step.arrival, step.fresh);
    let reading = step.reading(state);
    let outcome = step.outcome(state);
    if !reading.keeps() {
        let leaving = crate::tcp_step::leaving_verdicts(reading, step.own, step.kept);
        let shown = crate::tcp_step::leaving_events(reading, step.own, step.kept);
        lemma_leaving_is_shown(reading, step.own, step.kept);
        lemma_earlier_is_shown(state, step);
        let earlier = reading.verdicts.len() as int;
        assert(!(leaving.last() is Keep));
        assert(outcome.verdicts.last() == leaving.last());
        assert forall|i: int| 0 <= i < outcome.verdicts.len() implies is_shown(
            outcome.events[1 + i],
            #[trigger] outcome.verdicts[i],
        ) by {
            if i < earlier {
                assert(outcome.verdicts[i] == reading.verdicts[i]);
                assert(outcome.events[1 + i] == reading.events[1 + i]);
            } else {
                assert(outcome.verdicts[i] == leaving[i - earlier]);
                assert(outcome.events[1 + i] == shown[i - earlier]);
            }
        }
        assert forall|i: int|
            1 + outcome.verdicts.len() <= i < outcome.events.len() implies (
        #[trigger] outcome.events[i]) is Close by {
            assert(outcome.events[i] == shown[i - 1 - earlier]);
        }
    }
}

} // verus!
