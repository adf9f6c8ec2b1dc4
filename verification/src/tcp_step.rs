//! What the TCP handler does with a packet, as a function of its state and of what the data handler
//! makes of the data.
use vstd::prelude::*;

use crate::addr::{NetworkAddr, TcpAddr};
use crate::handler::{DataCall, TransportEvent};
use crate::packet::{InterceptVerdict, PacketView, VerdictView};
use crate::sessions::{NetAddrPair, NumberedSessionView};
use crate::tcp::{SessionView, WindInput};
use crate::tcp_tracker::{Release, TrackerView, FUTURE_QUEUE_LIMIT};

verus! {

/// The state of the TCP handler, without the data handler and the spy.
#[verifier::ext_equal]
#[verifier::reject_recursive_types(NetAddr)]
pub struct TcpState<NetAddr: NetworkAddr> {
    pub sessions: Map<NetAddrPair<NetAddr>, NumberedSessionView<NetAddr>>,
    pub id_counter: u64,
    pub last_used_key: Option<NetAddrPair<NetAddr>>,
    pub last_is_client: bool,
}

/// A packet and where it travels.
pub struct Arrival<NetAddr: NetworkAddr> {
    pub src_net: NetAddr,
    pub dst_net: NetAddr,
    pub packet: PacketView,
}

impl<NetAddr: NetworkAddr> Arrival<NetAddr> {
    pub open spec fn src_port(self) -> u16 {
        crate::tcp_util::src_port_of(self.packet.segment) as u16
    }

    pub open spec fn src(self) -> TcpAddr<NetAddr> {
        TcpAddr { net: self.src_net, port: self.src_port() }
    }

    pub open spec fn dst(self) -> TcpAddr<NetAddr> {
        TcpAddr {
            net: self.dst_net,
            port: crate::tcp_util::dst_port_of(self.packet.segment) as u16,
        }
    }

    /// The connection that the packet belongs to.
    pub open spec fn key(self) -> NetAddrPair<NetAddr> {
        crate::addr::session_key(self.src(), self.dst())
    }
}

/// What the spy is shown of a packet that leaves.
pub open spec fn after_event(
    packet: PacketView,
    is_client: bool,
    session_id: u64,
    verdict: InterceptVerdict,
) -> TransportEvent {
    TransportEvent::After {
        net_header: packet.net_header,
        transport_header: crate::tcp_tracker::header_of(packet.segment),
        is_client,
        data: crate::tcp_tracker::data_of(packet.segment),
        session_id,
        verdict,
    }
}

/// What the spy is shown of packets that leave together.
pub open spec fn after_events(
    packets: Seq<PacketView>,
    is_client: bool,
    session_id: u64,
    verdict: InterceptVerdict,
) -> Seq<TransportEvent> {
    packets.map_values(|p: PacketView| after_event(p, is_client, session_id, verdict))
}

/// What the spy is shown when a connection gives up the packets that it holds back.
pub open spec fn drained_events<NetAddr>(session: NumberedSessionView<NetAddr>) -> Seq<
    TransportEvent,
> {
    after_events(session.session.client.queue, true, session.session_id, InterceptVerdict::Drop)
        + after_events(
        session.session.server.queue,
        false,
        session.session_id,
        InterceptVerdict::Drop,
    )
}

pub open spec fn all_dropped(packets: Seq<PacketView>) -> Seq<VerdictView> {
    packets.map_values(|p: PacketView| VerdictView::Drop(p))
}

pub open spec fn all_accepted(packets: Seq<PacketView>) -> Seq<VerdictView> {
    packets.map_values(|p: PacketView| VerdictView::Accept(p))
}

/// What is decided when a connection gives up the packets that it holds back.
pub open spec fn drained_verdicts<NetAddr>(session: NumberedSessionView<NetAddr>) -> Seq<
    VerdictView,
> {
    all_dropped(session.session.client.queue) + all_dropped(session.session.server.queue)
}

/// The connection without the packets that it holds back.
pub open spec fn drained<NetAddr>(session: NumberedSessionView<NetAddr>) -> NumberedSessionView<
    NetAddr,
> {
    NumberedSessionView {
        session: SessionView {
            client: TrackerView { queue: seq![], ..session.session.client },
            server: TrackerView { queue: seq![], ..session.session.server },
            ..session.session
        },
        ..session
    }
}

/// Whether the data handler was given the last `n` bytes of `packet`, together with the sequence
/// number that the header gives to the first of them.
pub open spec fn is_call_for(
    call: DataCall,
    packet: PacketView,
    n: int,
    is_client: bool,
    session_id: u64,
) -> bool {
    let segment = packet.segment;
    &&& call.session_id == session_id
    &&& call.is_client == is_client
    &&& call.counter == crate::util::seq_plus(
        crate::tcp_util::seq_of(segment) as u32,
        crate::tcp_tracker::data_of(segment).len() - n,
    )
    &&& call.data == segment.skip(segment.len() - n)
    &&& call.out.len() == n
}

/// `packet` with other bytes at its end.
pub open spec fn with_new_data(packet: PacketView, out: Seq<u8>) -> PacketView {
    PacketView { segment: packet.segment.take(packet.segment.len() - out.len()) + out, ..packet }
}

/// Whether the data handler was given the new data of the packets that are let go, one by one.
pub open spec fn are_calls_for(
    calls: Seq<DataCall>,
    releases: Seq<Release>,
    is_client: bool,
    session_id: u64,
) -> bool {
    &&& calls.len() == releases.len()
    &&& forall|i: int|
        0 <= i < calls.len() ==> is_call_for(
            #[trigger] calls[i],
            releases[i].packet,
            releases[i].new_data_len,
            is_client,
            session_id,
        )
}

/// What the data handler made of the data.
pub open spec fn outs(calls: Seq<DataCall>) -> Seq<Seq<u8>> {
    calls.map_values(|c: DataCall| c.out)
}

/// The packets that are let go, with what the data handler made of their new data.
pub open spec fn kept_packets(releases: Seq<Release>, calls: Seq<DataCall>) -> Seq<PacketView> {
    Seq::new(releases.len(), |i: int| with_new_data(releases[i].packet, calls[i].out))
}

/// The direction after the packets that can be let go at once have left.
pub open spec fn round_over(direction: TrackerView, calls: Seq<DataCall>) -> TrackerView {
    direction.released(crate::tcp_tracker::joined(outs(calls)))
}

/// Whether the data handler was given the new data of all packets that are let go, one by one. The
/// data of some may let others go, until all that stay come later.
pub open spec fn let_go_calls_fit(
    direction: TrackerView,
    calls: Seq<DataCall>,
    is_client: bool,
    session_id: u64,
) -> bool
    decreases calls.len(),
{
    let releases = direction.releases(0);
    let n = releases.len() as int;
    if n == 0 {
        calls.len() == 0
    } else if calls.len() < n {
        false
    } else {
        &&& are_calls_for(calls.take(n), releases, is_client, session_id)
        &&& let_go_calls_fit(
            round_over(direction, calls.take(n)),
            calls.skip(n),
            is_client,
            session_id,
        )
    }
}

/// All packets that are let go, with what the data handler made of their new data.
pub open spec fn let_go_packets(direction: TrackerView, calls: Seq<DataCall>) -> Seq<PacketView>
    decreases calls.len(),
{
    let releases = direction.releases(0);
    let n = releases.len() as int;
    if n == 0 || calls.len() < n {
        seq![]
    } else {
        kept_packets(releases, calls.take(n)) + let_go_packets(
            round_over(direction, calls.take(n)),
            calls.skip(n),
        )
    }
}

/// The direction after all packets that are let go have left.
pub open spec fn let_go_direction(direction: TrackerView, calls: Seq<DataCall>) -> TrackerView
    decreases calls.len(),
{
    let n = direction.releases(0).len() as int;
    if n == 0 || calls.len() < n {
        direction
    } else {
        let_go_direction(round_over(direction, calls.take(n)), calls.skip(n))
    }
}

/// A packet after it was held against its connection.
#[verifier::reject_recursive_types(NetAddr)]
pub struct Reading<NetAddr: NetworkAddr> {
    /// The connections, but for the one of the packet.
    pub sessions: Map<NetAddrPair<NetAddr>, NumberedSessionView<NetAddr>>,
    pub id_counter: u64,
    /// The connection of the packet.
    pub session: NumberedSessionView<NetAddr>,
    /// What the packet does to it.
    pub input: WindInput,
    /// The packet, with its retransmitted bytes in place.
    pub packet: PacketView,
    /// What the spy has been shown.
    pub events: Seq<TransportEvent>,
    /// What has been decided about packets of an earlier connection.
    pub verdicts: Seq<VerdictView>,
}

/// The connection of the packet as it is found; one that is not followed yet gets the next number.
pub open spec fn found_session<NetAddr: NetworkAddr>(
    state: TcpState<NetAddr>,
    arrival: Arrival<NetAddr>,
    fresh: SessionView<NetAddr>,
) -> NumberedSessionView<NetAddr> {
    if state.sessions.contains_key(arrival.key()) {
        state.sessions[arrival.key()]
    } else {
        NumberedSessionView { session: fresh, session_id: state.id_counter }
    }
}

/// Whether the packet opens another connection in the place of the one that is followed.
pub open spec fn reopens<NetAddr: NetworkAddr>(
    state: TcpState<NetAddr>,
    arrival: Arrival<NetAddr>,
) -> bool {
    &&& state.sessions.contains_key(arrival.key())
    &&& state.sessions[arrival.key()].session.plunged(
        arrival.src_net,
        arrival.src_port(),
        arrival.packet.segment,
    ).tracker_wind_input.result.new_connection
}

/// The packet held against its connection. A packet that opens another connection ends the one
/// that was followed; what that one held back is dropped.
pub open spec fn reading<NetAddr: NetworkAddr>(
    state: TcpState<NetAddr>,
    arrival: Arrival<NetAddr>,
    fresh: SessionView<NetAddr>,
) -> Reading<NetAddr> {
    let found = found_session(state, arrival, fresh);
    let reopens = reopens(state, arrival);
    let opens = opens(state, arrival);
    let segment = arrival.packet.segment;
    let session = if opens {
        NumberedSessionView { session: fresh, session_id: state.id_counter }
    } else {
        found
    };
    let before = TransportEvent::Before {
        net_header: arrival.packet.net_header,
        transport_header: crate::tcp_tracker::header_of(segment),
        data: crate::tcp_tracker::data_of(segment),
        session_id: found.session_id,
    };
    Reading {
        sessions: state.sessions.remove(arrival.key()),
        id_counter: if opens { (state.id_counter + 1) as u64 } else { state.id_counter },
        session: NumberedSessionView {
            session: session.session.placed(arrival.src_net, arrival.src_port()),
            ..session
        },
        input: session.session.plunged(arrival.src_net, arrival.src_port(), segment),
        packet: PacketView {
            segment: session.session.plunged_segment(arrival.src_net, arrival.src_port(), segment),
            ..arrival.packet
        },
        events: if reopens { seq![before] + drained_events(found) } else { seq![before] },
        verdicts: if reopens { drained_verdicts(found) } else { seq![] },
    }
}

/// A packet that is about to leave, and its connection.
pub struct Settled<NetAddr: NetworkAddr> {
    pub session: NumberedSessionView<NetAddr>,
    pub packet: PacketView,
    pub verdict: InterceptVerdict,
    /// Whether the connection ends.
    pub removes: bool,
}

impl<NetAddr: NetworkAddr> Reading<NetAddr> {
    /// The direction of the packet.
    pub open spec fn direction(self) -> TrackerView {
        self.session.session.direction(self.input.is_client)
    }

    pub open spec fn is_future(self) -> bool {
        self.input.tracker_wind_input.result.is_future
    }

    pub open spec fn new_data_len(self) -> int {
        self.input.tracker_wind_input.result.new_data_len as int
    }

    /// Whether the packet is held back.
    pub open spec fn keeps(self) -> bool {
        self.is_future() && self.direction().queue.len() < FUTURE_QUEUE_LIMIT
    }

    /// The connection with the packet held back.
    pub open spec fn kept(self) -> NumberedSessionView<NetAddr> {
        NumberedSessionView {
            session: self.session.session.with_direction(
                self.input.is_client,
                TrackerView {
                    queue: self.direction().queue.push(self.packet),
                    ..self.direction()
                },
            ),
            ..self.session
        }
    }

    /// Whether `own` is the call of the data handler for the packet, if there is one.
    pub open spec fn own_call_fits(self, own: Option<DataCall>) -> bool {
        match own {
            Some(call) => !self.is_future() && self.new_data_len() > 0 && is_call_for(
                call,
                self.packet,
                self.new_data_len(),
                self.input.is_client,
                self.session.session_id,
            ),
            None => self.is_future() || self.new_data_len() == 0,
        }
    }

    /// What becomes of the packet, where it is not held back. One that finds no room in the queue is
    /// dropped and ends its connection; of any other, the data handler decides if there is new data.
    pub open spec fn settled(self, own: Option<DataCall>) -> Settled<NetAddr> {
        if self.is_future() {
            Settled {
                session: self.session,
                packet: self.packet,
                verdict: InterceptVerdict::Drop,
                removes: true,
            }
        } else {
            let wound = self.direction().wound(self.input.tracker_wind_input);
            let (direction, packet, verdict) = match own {
                Some(call) => (
                    wound.risen(call.out),
                    with_new_data(self.packet, call.out),
                    call.verdict,
                ),
                None => (wound, self.packet, InterceptVerdict::Accept),
            };
            Settled {
                session: NumberedSessionView {
                    session: self.session.session.with_direction(self.input.is_client, direction),
                    ..self.session
                },
                packet,
                verdict,
                removes: self.input.tracker_wind_input.result.closing,
            }
        }
    }
}

/// What comes of a packet.
#[verifier::reject_recursive_types(NetAddr)]
pub struct Outcome<NetAddr: NetworkAddr> {
    pub state: TcpState<NetAddr>,
    pub events: Seq<TransportEvent>,
    pub verdicts: Seq<VerdictView>,
}

/// Whether `own` and `kept` are the calls of the data handler: for the packet itself, if it has new
/// data, then for those that it lets go.
pub open spec fn calls_fit<NetAddr: NetworkAddr>(
    reading: Reading<NetAddr>,
    own: Option<DataCall>,
    kept: Seq<DataCall>,
) -> bool {
    if reading.keeps() {
        own is None && kept.len() == 0
    } else {
        &&& reading.own_call_fits(own)
        &&& if reading.settled(own).removes {
            kept.len() == 0
        } else {
            let_go_calls_fit(
                settled_direction(reading, own),
                kept,
                reading.input.is_client,
                reading.session.session_id,
            )
        }
    }
}

/// The direction of the packet before it lets others go.
pub open spec fn settled_direction<NetAddr: NetworkAddr>(
    reading: Reading<NetAddr>,
    own: Option<DataCall>,
) -> TrackerView {
    reading.settled(own).session.session.direction(reading.input.is_client)
}

/// The call for the packet itself as a sequence.
pub open spec fn own_calls(own: Option<DataCall>) -> Seq<DataCall> {
    match own {
        Some(call) => seq![call],
        None => seq![],
    }
}

/// Whether a connection is opened for the packet.
pub open spec fn opens<NetAddr: NetworkAddr>(
    state: TcpState<NetAddr>,
    arrival: Arrival<NetAddr>,
) -> bool {
    !state.sessions.contains_key(arrival.key()) || reopens(state, arrival)
}

/// The verdict on a packet.
pub open spec fn verdict_on(verdict: InterceptVerdict, packet: PacketView) -> VerdictView {
    match verdict {
        InterceptVerdict::Accept => VerdictView::Accept(packet),
        InterceptVerdict::Drop => VerdictView::Drop(packet),
    }
}

/// What the spy is shown when the packet leaves: the packets that leave with it, the packet itself,
/// and the end of the connection, if it ends.
pub open spec fn leaving_events<NetAddr: NetworkAddr>(
    reading: Reading<NetAddr>,
    own: Option<DataCall>,
    kept: Seq<DataCall>,
) -> Seq<TransportEvent> {
    let is_client = reading.input.is_client;
    let id = reading.session.session_id;
    let settled = reading.settled(own);
    let after = after_event(settled.packet, is_client, id, settled.verdict);
    if settled.removes {
        drained_events(settled.session) + seq![
            after,
            TransportEvent::Close { is_client: false, session_id: id },
            TransportEvent::Close { is_client: true, session_id: id },
        ]
    } else {
        let packets = let_go_packets(settled_direction(reading, own), kept);
        after_events(packets, is_client, id, InterceptVerdict::Accept) + seq![after]
    }
}

/// What is decided when the packet leaves: about the packets that leave with it, then about the
/// packet itself.
pub open spec fn leaving_verdicts<NetAddr: NetworkAddr>(
    reading: Reading<NetAddr>,
    own: Option<DataCall>,
    kept: Seq<DataCall>,
) -> Seq<VerdictView> {
    let settled = reading.settled(own);
    let verdict = verdict_on(settled.verdict, settled.packet);
    if settled.removes {
        drained_verdicts(settled.session) + seq![verdict]
    } else {
        all_accepted(let_go_packets(settled_direction(reading, own), kept)) + seq![verdict]
    }
}

/// The connection of the packet after the packet has left, if the connection goes on.
pub open spec fn left_session<NetAddr: NetworkAddr>(
    reading: Reading<NetAddr>,
    own: Option<DataCall>,
    kept: Seq<DataCall>,
) -> NumberedSessionView<NetAddr> {
    let settled = reading.settled(own);
    let is_client = reading.input.is_client;
    NumberedSessionView {
        session: settled.session.session.with_direction(
            is_client,
            let_go_direction(settled_direction(reading, own), kept),
        ),
        ..settled.session
    }
}

/// What comes of a packet once it was held against its connection.
pub open spec fn outcome<NetAddr: NetworkAddr>(
    arrival: Arrival<NetAddr>,
    reading: Reading<NetAddr>,
    own: Option<DataCall>,
    kept: Seq<DataCall>,
) -> Outcome<NetAddr> {
    let sessions = if reading.keeps() {
        reading.sessions.insert(arrival.key(), reading.kept())
    } else if reading.settled(own).removes {
        reading.sessions
    } else {
        reading.sessions.insert(arrival.key(), left_session(reading, own, kept))
    };
    let state = TcpState {
        sessions,
        id_counter: reading.id_counter,
        last_used_key: Some((arrival.src(), arrival.dst())),
        last_is_client: reading.input.is_client,
    };
    if reading.keeps() {
        Outcome { state, events: reading.events, verdicts: seq![VerdictView::Keep] }
    } else {
        Outcome {
            state,
            events: reading.events + leaving_events(reading, own, kept),
            verdicts: reading.verdicts + leaving_verdicts(reading, own, kept),
        }
    }
}

} // verus!
