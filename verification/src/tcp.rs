//! Both directions of a TCP connection.
use std::time::Instant;

use vstd::prelude::*;

use crate::addr::NetworkAddr;
use crate::packet::TransportPacketParent;
use crate::tcp_tracker::{
    FutureVerdict, TcpPeerTracker, TcpTrackerPlungeResult, TcpTrackerRewindInput,
    TcpTrackerRiseInput, TcpTrackerRiseResult, TrackerView, TrackerWindInput, TRACKER_BUFFER_LEN,
};
use crate::tcp_util::{tcp_flags, tcp_header_len, tcp_seq};

verus! {

/// A point in time of the machine's steady clock.
#[verifier::external_type_specification]
#[verifier::external_body]
pub struct ExInstant(std::time::Instant);

/// Calls `std::time::Instant::now`. Nothing is claimed of the point in time that it gives.
#[verifier::external_body]
fn now() -> Instant {
    Instant::now()
}

/// Why a packet cannot be handled.
#[derive(Debug, Clone, Copy)]
pub enum SnarfTcpError {
    /// It carries more data than the tracker remembers.
    PacketTooBigError,
    /// Too many packets wait for the data before them.
    FutureQueueOverflow,
}

/// What a packet does to the connection.
#[derive(Clone, Copy, Debug)]
pub struct WindInput {
    pub is_client: bool,
    pub tracker_wind_input: TrackerWindInput,
}

impl WindInput {
    pub fn new(is_client: bool, tracker_wind_input: TrackerWindInput) -> (r: Self)
        ensures
            r == (WindInput { is_client, tracker_wind_input }),
    {
        Self { is_client, tracker_wind_input }
    }
}

/// What a packet is to the connection.
#[derive(Clone, Copy, Debug)]
pub struct PlungeResult {
    pub is_client: bool,
    pub tracker_plunge_result: TcpTrackerPlungeResult,
}

impl PlungeResult {
    pub fn new(is_client: bool, tracker_plunge_result: TcpTrackerPlungeResult) -> (r: Self)
        ensures
            r == (PlungeResult { is_client, tracker_plunge_result }),
    {
        Self { is_client, tracker_plunge_result }
    }

    pub fn tracker_result(&self) -> (r: &TcpTrackerPlungeResult)
        ensures
            *r == self.tracker_plunge_result,
    {
        &self.tracker_plunge_result
    }
}

/// Where the connection stood before a packet was wound in.
#[derive(Clone, Copy, Debug)]
pub struct RewindInput {
    pub is_client: bool,
    pub tracker_rewind_input: TcpTrackerRewindInput,
}

impl RewindInput {
    pub fn from_tracker(is_client: bool, tracker_input: Option<TcpTrackerRewindInput>) -> (r: Option<
        Self,
    >)
        ensures
            r == match tracker_input {
                Some(tracker_rewind_input) => Some(
                    RewindInput { is_client, tracker_rewind_input },
                ),
                None => None,
            },
    {
        match tracker_input {
            Some(tracker_rewind_input) => Some(Self { is_client, tracker_rewind_input }),
            None => None,
        }
    }
}

/// The data that a packet adds to the connection.
#[derive(Clone, Copy, Debug)]
pub struct RiseInput {
    pub is_client: bool,
    pub tracker_rise_input: TcpTrackerRiseInput,
}

impl RiseInput {
    pub fn from_tracker(is_client: bool, tracker_input: Option<TcpTrackerRiseInput>) -> (r: Option<
        Self,
    >)
        ensures
            r == match tracker_input {
                Some(tracker_rise_input) => Some(RiseInput { is_client, tracker_rise_input }),
                None => None,
            },
    {
        match tracker_input {
            Some(tracker_rise_input) => Some(Self { is_client, tracker_rise_input }),
            None => None,
        }
    }
}

/// Whether a packet comes from the client, and what it is to its direction.
pub type TcpPlungeResult = (bool, TcpTrackerPlungeResult);

/// A connection as it is seen from outside.
#[verifier::ext_equal]
pub struct SessionView<NetAddr> {
    pub src_net: NetAddr,
    pub src_port: u16,
    pub client: TrackerView,
    pub server: TrackerView,
    pub src_init: bool,
    pub handshake_done: bool,
    pub created: Instant,
}

impl<NetAddr> SessionView<NetAddr> {
    /// The connection once a packet from this end has been seen: the first one is the client's.
    pub open spec fn placed(self, src_net: NetAddr, src_port: u16) -> Self {
        if self.src_init {
            self
        } else {
            SessionView { src_net, src_port, src_init: true, ..self }
        }
    }

    /// Whether this end is the client.
    pub open spec fn from_client(self, src_net: NetAddr, src_port: u16) -> bool {
        let placed = self.placed(src_net, src_port);
        placed.src_net == src_net && placed.src_port == src_port
    }

    /// The direction from the client, or the one from the server.
    pub open spec fn direction(self, is_client: bool) -> TrackerView {
        if is_client {
            self.client
        } else {
            self.server
        }
    }

    /// The connection with another direction from the client, or from the server.
    pub open spec fn with_direction(self, is_client: bool, direction: TrackerView) -> Self {
        if is_client {
            SessionView { client: direction, ..self }
        } else {
            SessionView { server: direction, ..self }
        }
    }

    /// Whether nothing has been seen yet.
    pub open spec fn is_fresh(self) -> bool {
        &&& !self.src_init
        &&& self.src_port == 0
        &&& !self.handshake_done
        &&& self.client == TrackerView::fresh()
        &&& self.server == TrackerView::fresh()
    }

    /// What the packet with this segment does to the connection.
    pub open spec fn plunged(self, src_net: NetAddr, src_port: u16, segment: Seq<u8>) -> WindInput {
        let is_client = self.from_client(src_net, src_port);
        WindInput {
            is_client,
            tracker_wind_input: self.direction(is_client).plunged(
                segment[13],
                crate::tcp_util::seq_of(segment) as u32,
                crate::tcp_tracker::data_of(segment).len() as int,
            ),
        }
    }

    /// That segment, where the bytes that are remembered are those that passed.
    pub open spec fn plunged_segment(
        self,
        src_net: NetAddr,
        src_port: u16,
        segment: Seq<u8>,
    ) -> Seq<u8> {
        let is_client = self.from_client(src_net, src_port);
        crate::tcp_tracker::header_of(segment) + self.direction(is_client).plunged_data(
            segment[13],
            crate::tcp_util::seq_of(segment) as u32,
            crate::tcp_tracker::data_of(segment),
        )
    }
}

/// A TCP connection.
#[derive(Debug)]
pub struct TcpSession<NetAddr: NetworkAddr, RF: TransportPacketParent> {
    pub src_net: NetAddr,
    pub src_port: u16,
    pub src_tracker: TcpPeerTracker<RF>,
    pub dst_tracker: TcpPeerTracker<RF>,
    pub src_init: bool,
    pub handshake_done: bool,
    pub created: Instant,
}

impl<NetAddr: NetworkAddr, RF: TransportPacketParent> Default for TcpSession<NetAddr, RF> {
    fn default() -> (r: Self)
        ensures
            r.wf(),
            r@.is_fresh(),
            call_ensures(NetAddr::default, (), r.src_net),
    {
        Self {
            src_net: NetAddr::default(),
            src_port: 0,
            src_tracker: TcpPeerTracker::new(),
            dst_tracker: TcpPeerTracker::new(),
            src_init: false,
            handshake_done: false,
            created: now(),
        }
    }
}

impl<NetAddr: NetworkAddr, RF: TransportPacketParent> TcpSession<NetAddr, RF> {
    /// The connection as it is seen from outside.
    pub open spec fn view(&self) -> SessionView<NetAddr> {
        SessionView {
            src_net: self.src_net,
            src_port: self.src_port,
            client: self.src_tracker@,
            server: self.dst_tracker@,
            src_init: self.src_init,
            handshake_done: self.handshake_done,
            created: self.created,
        }
    }

    pub open spec fn wf(&self) -> bool {
        &&& self.src_tracker.wf()
        &&& self.dst_tracker.wf()
    }

    /// Moves a direction on by the data that a packet adds, and hands out the room for it.
    pub fn rise_tcp_packet<'a>(&'a mut self, is_client: bool, rise_input: RiseInput) -> (r: Result<
        TcpTrackerRiseResult<'a>,
        SnarfTcpError,
    >)
        requires
            old(self).wf(),
            old(self)@.direction(is_client).init,
        ensures
            rise_input.tracker_rise_input.new_data_len > TRACKER_BUFFER_LEN <==> r is Err,
            r matches Err(e) ==> e is PacketTooBigError && *final(self) == *old(self),
            r matches Ok(room) ==> {
                &&& room.writable@.len() == rise_input.tracker_rise_input.new_data_len
                &&& forall|data: Seq<u8>|
                    #![trigger old(self)@.direction(is_client).risen(data)]
                    data == final(room.writable.front)@ + final(room.writable.back)@
                        && final(room.writable.front)@.len() == room.writable.front@.len()
                        && final(room.writable.back)@.len() == room.writable.back@.len()
                        ==> final(self)@ == old(self)@.with_direction(
                        is_client,
                        old(self)@.direction(is_client).risen(data),
                    ) && final(self).wf()
            },
    {
        if is_client {
            self.src_tracker.rise(rise_input.tracker_rise_input)
        } else {
            self.dst_tracker.rise(rise_input.tracker_rise_input)
        }
    }

    /// Finds out what a packet does to the connection, and puts the bytes that are remembered in
    /// the place of those it has. The end that sends the first packet is the client.
    pub fn plunge_tcp_packet(
        &mut self,
        src_net: NetAddr,
        src_port: u16,
        tcp_payload: &mut [u8],
    ) -> (r: Result<WindInput, SnarfTcpError>)
        requires
            old(self).wf(),
            14 <= old(tcp_payload)@.len(),
            crate::tcp_util::header_len_of(old(tcp_payload)@) <= old(tcp_payload)@.len(),
        ensures
            final(self).wf(),
            final(self)@ == old(self)@.placed(src_net, src_port),
            crate::tcp_tracker::data_of(old(tcp_payload)@).len() > TRACKER_BUFFER_LEN ==> r == Err::<
                WindInput,
                _,
            >(SnarfTcpError::PacketTooBigError) && final(tcp_payload)@ == old(tcp_payload)@,
            crate::tcp_tracker::data_of(old(tcp_payload)@).len() <= TRACKER_BUFFER_LEN ==> r == Ok::<
                _,
                SnarfTcpError,
            >(old(self)@.plunged(src_net, src_port, old(tcp_payload)@)) && final(tcp_payload)@
                == old(self)@.plunged_segment(src_net, src_port, old(tcp_payload)@),
    {
        if !self.src_init {
            self.src_net = src_net;
            self.src_port = src_port;
            self.src_init = true;
        }
        let ghost segment = tcp_payload@;

        let seq: u32 = tcp_seq(tcp_payload);
        let flags: u8 = tcp_flags(tcp_payload);
        let header_len: usize = tcp_header_len(tcp_payload);
        let (_header, data) = tcp_payload.split_at_mut(header_len);
        assert(segment =~= crate::tcp_tracker::header_of(segment)
            + crate::tcp_tracker::data_of(segment));

        proof {
            NetAddr::number_tells_apart(self.src_net, src_net);
        }
        let is_client: bool = self.src_net.to_number() == src_net.to_number() && self.src_port
            == src_port;
        let plunged = if is_client {
            self.src_tracker.plunge(flags, seq, data)
        } else {
            self.dst_tracker.plunge(flags, seq, data)
        };
        match plunged {
            Ok(tracker_wind_input) => Ok(WindInput::new(is_client, tracker_wind_input)),
            Err(e) => Err(e),
        }
    }

    /// Takes up what a packet does to the connection, but for its data.
    pub fn wind(&mut self, input: WindInput) -> (r: Result<
        (Option<RiseInput>, Option<RewindInput>),
        SnarfTcpError,
    >)
        requires
            old(self).wf(),
        ensures
            final(self).wf(),
            input.tracker_wind_input.result.new_data_len > TRACKER_BUFFER_LEN ==> r == Err::<
                (Option<RiseInput>, Option<RewindInput>),
                _,
            >(SnarfTcpError::PacketTooBigError) && final(self)@ == old(self)@,
            input.tracker_wind_input.result.new_data_len <= TRACKER_BUFFER_LEN ==> {
                &&& r is Ok
                &&& r->Ok_0.0 == match crate::tcp_tracker::rise_input_of(input.tracker_wind_input) {
                    Some(tracker_rise_input) => Some(
                        RiseInput { is_client: input.is_client, tracker_rise_input },
                    ),
                    None => None,
                }
                &&& r->Ok_0.1 == match old(self)@.direction(input.is_client).rewind_input_of(
                    input.tracker_wind_input,
                ) {
                    Some(tracker_rewind_input) => Some(
                        RewindInput { is_client: input.is_client, tracker_rewind_input },
                    ),
                    None => None,
                }
                &&& final(self)@ == old(self)@.with_direction(
                    input.is_client,
                    old(self)@.direction(input.is_client).wound(input.tracker_wind_input),
                )
            },
    {
        let wound = if input.is_client {
            self.src_tracker.wind(input.tracker_wind_input)
        } else {
            self.dst_tracker.wind(input.tracker_wind_input)
        };
        match wound {
            Ok((rise_input, rewind_input)) => Ok(
                (
                    RiseInput::from_tracker(input.is_client, rise_input),
                    RewindInput::from_tracker(input.is_client, rewind_input),
                ),
            ),
            Err(e) => Err(e),
        }
    }

    /// Holds a packet back until the data before it has arrived.
    pub fn add_future_payload(&mut self, is_client: bool, parent_reference: RF) -> (r: Result<
        (),
        (RF, SnarfTcpError),
    >)
        requires
            old(self).wf(),
            old(self)@.direction(is_client).init,
            parent_reference.splittable(),
            crate::tcp_tracker::is_segment(parent_reference.segment()),
            0 < crate::tcp_tracker::data_of(parent_reference.segment()).len()
                <= TRACKER_BUFFER_LEN,
        ensures
            final(self).wf(),
            old(self)@.direction(is_client).queue.len() < crate::tcp_tracker::FUTURE_QUEUE_LIMIT
                ==> r is Ok && final(self)@ == old(self)@.with_direction(
                is_client,
                (TrackerView {
                    queue: old(self)@.direction(is_client).queue.push(
                        crate::packet::packet_view(parent_reference),
                    ),
                    ..old(self)@.direction(is_client)
                }),
            ),
            old(self)@.direction(is_client).queue.len() >= crate::tcp_tracker::FUTURE_QUEUE_LIMIT
                ==> r == Err::<(), _>((parent_reference, SnarfTcpError::FutureQueueOverflow))
                && *final(self) == *old(self),
    {
        if is_client {
            self.src_tracker.add_future_payload(parent_reference)
        } else {
            self.dst_tracker.add_future_payload(parent_reference)
        }
    }

    /// Lets packets of a direction go that do not come later any more: the first of them that adds
    /// data, those before it that add none, and those whose data comes right behind it.
    pub fn verdict_kept<'a>(&'a mut self, is_client: bool) -> (r: Vec<FutureVerdict<'a, RF>>)
        requires
            old(self).wf(),
        ensures
            r@.len() == old(self)@.direction(is_client).releases(0).len(),
            forall|i: int|
                0 <= i < r@.len() ==> {
                    let release = old(self)@.direction(is_client).releases(0)[i];
                    &&& crate::packet::packet_view((#[trigger] r@[i]).rf) == release.packet
                    &&& r@[i].rf.splittable()
                    &&& crate::tcp_tracker::is_segment(r@[i].rf.segment())
                    &&& r@[i].header_len == crate::tcp_util::header_len_of(r@[i].rf.segment())
                    &&& r@[i].new_data_len == release.new_data_len
                    &&& r@[i].new_data_len <= crate::tcp_tracker::data_of(
                        r@[i].rf.segment(),
                    ).len() <= TRACKER_BUFFER_LEN
                    &&& r@[i].writable@.len() == release.new_data_len
                },
            forall|parts: Seq<Seq<u8>>|
                #![trigger crate::tcp_tracker::joined(parts)]
                parts.len() == r@.len() && (forall|i: int|
                    0 <= i < r@.len() ==> {
                        &&& #[trigger] parts[i] == final(r@[i].writable.front)@
                            + final(r@[i].writable.back)@
                        &&& final(r@[i].writable.front)@.len() == r@[i].writable.front@.len()
                        &&& final(r@[i].writable.back)@.len() == r@[i].writable.back@.len()
                    }) ==> final(self)@ == old(self)@.with_direction(
                    is_client,
                    old(self)@.direction(is_client).released(crate::tcp_tracker::joined(parts)),
                ) && final(self).wf(),
    {
        if is_client {
            self.src_tracker.update_future_queue()
        } else {
            self.dst_tracker.update_future_queue()
        }
    }

    /// Lets all packets of a direction go that are held back; none of them adds anything to the
    /// stream.
    pub fn drain_nowrite_future_queue(&mut self, is_client: bool) -> (r: Vec<
        FutureVerdict<'static, RF>,
    >)
        requires
            old(self).wf(),
        ensures
            final(self).wf(),
            final(self)@ == old(self)@.with_direction(
                is_client,
                (TrackerView { queue: seq![], ..old(self)@.direction(is_client) }),
            ),
            r@.len() == old(self)@.direction(is_client).queue.len(),
            forall|i: int|
                0 <= i < r@.len() ==> {
                    &&& crate::packet::packet_view((#[trigger] r@[i]).rf) == old(self)@.direction(
                        is_client,
                    ).queue[i]
                    &&& r@[i].rf.splittable()
                    &&& crate::tcp_tracker::is_segment(r@[i].rf.segment())
                    &&& crate::tcp_tracker::data_of(r@[i].rf.segment()).len() <= TRACKER_BUFFER_LEN
                    &&& r@[i].header_len == crate::tcp_util::header_len_of(r@[i].rf.segment())
                    &&& r@[i].new_data_len == 0
                    &&& r@[i].writable@.len() == 0
                },
    {
        if is_client {
            self.src_tracker.drain_nowrite_future_queue()
        } else {
            self.dst_tracker.drain_nowrite_future_queue()
        }
    }
}

} // verus!
