//! The TCP handler: follows connections, hands their data on in order, and decides about packets.
use vstd::prelude::*;

use crate::addr::{NetworkAddr, TcpAddr};
use crate::deque::DequeSliceMut;
use crate::handler::{
    ApplicationDataSnarfHandler, DataCall, TransportEvent, TransportSnarfHandler,
    TransportSnarfSpy,
};
use crate::packet::{InterceptVerdict, PacketView, SnarfInterceptVerdict, TransportPacketParent};
use crate::sessions::{NetAddrPair, NumberedSessionView, TcpSessionMap, TcpSessionWithId};
use crate::tcp::{SessionView, TcpSession, WindInput};
use crate::tcp_history::Step;
use crate::tcp_step::{Arrival, Reading, TcpState};
use crate::tcp_tracker::{FutureVerdict, Release, TrackerView, TRACKER_BUFFER_LEN};
use crate::tcp_util::{tcp_dst_port, tcp_header_len, tcp_seq, tcp_src_port};

verus! {

/// Whether all packets that leave are long enough for their network headers.
pub open spec fn all_splittable<RF: TransportPacketParent>(
    verdicts: Seq<SnarfInterceptVerdict<RF>>,
) -> bool {
    forall|i: int|
        0 <= i < verdicts.len() ==> match #[trigger] verdicts[i] {
            SnarfInterceptVerdict::Accept(rf) => rf.splittable(),
            SnarfInterceptVerdict::Drop(rf) => rf.splittable(),
            SnarfInterceptVerdict::Keep => true,
        }
}

/// Packets that leave together with others.
proof fn lemma_all_splittable_join<RF: TransportPacketParent>(
    first: Seq<SnarfInterceptVerdict<RF>>,
    second: Seq<SnarfInterceptVerdict<RF>>,
)
    requires
        all_splittable(first),
        all_splittable(second),
    ensures
        all_splittable(first + second),
{
    let both = first + second;
    assert forall|i: int| 0 <= i < both.len() implies match #[trigger] both[i] {
        SnarfInterceptVerdict::Accept(rf) => rf.splittable(),
        SnarfInterceptVerdict::Drop(rf) => rf.splittable(),
        SnarfInterceptVerdict::Keep => true,
    } by {
        if i < first.len() {
            assert(both[i] == first[i]);
        } else {
            assert(both[i] == second[i - first.len()]);
        }
    }
}

/// The packets that are let go.
pub open spec fn packets_of<RF: TransportPacketParent>(released: Seq<FutureVerdict<RF>>) -> Seq<
    PacketView,
> {
    released.map_values(|v: FutureVerdict<RF>| crate::packet::packet_view(v.rf))
}

/// Whether the packet can be followed: it has the header of a TCP segment, and no more data than
/// is remembered.
pub open spec fn is_followable<RF: TransportPacketParent>(rf: RF) -> bool {
    &&& rf.splittable()
    &&& crate::tcp_tracker::is_segment(rf.segment())
    &&& crate::tcp_tracker::data_of(rf.segment()).len() <= TRACKER_BUFFER_LEN
}

/// Shows the spy a packet that arrives.
fn show_before<RF: TransportPacketParent, TSpy: TransportSnarfSpy>(
    rf: &mut RF,
    session_id: u64,
    spy: &mut TSpy,
)
    requires
        is_followable(*old(rf)),
    ensures
        crate::packet::packet_view(*final(rf)) == crate::packet::packet_view(*old(rf)),
        final(rf).splittable(),
        TSpy::transport_seen(
            old(spy),
            TransportEvent::Before {
                net_header: old(rf).net_header(),
                transport_header: crate::tcp_tracker::header_of(old(rf).segment()),
                data: crate::tcp_tracker::data_of(old(rf).segment()),
                session_id,
            },
            final(spy),
        ),
{
    let (net_header, tcp_payload) = rf.split();
    let header_len: usize = tcp_header_len(tcp_payload);
    let (tcp_header, data) = tcp_payload.split_at(header_len);
    spy.before(net_header, tcp_header, data, session_id);
}

/// Shows the spy a packet that leaves.
fn show_after<RF: TransportPacketParent, TSpy: TransportSnarfSpy>(
    rf: &mut RF,
    is_client: bool,
    session_id: u64,
    verdict: &InterceptVerdict,
    spy: &mut TSpy,
)
    requires
        is_followable(*old(rf)),
    ensures
        crate::packet::packet_view(*final(rf)) == crate::packet::packet_view(*old(rf)),
        final(rf).splittable(),
        TSpy::transport_seen(
            old(spy),
            crate::tcp_step::after_event(
                crate::packet::packet_view(*old(rf)),
                is_client,
                session_id,
                *verdict,
            ),
            final(spy),
        ),
{
    let (net_header, tcp_payload) = rf.split();
    let header_len: usize = tcp_header_len(tcp_payload);
    let (tcp_header, data) = tcp_payload.split_at(header_len);
    spy.after(net_header, tcp_header, is_client, data, session_id, verdict);
}

/// Hands the new data of a packet to the data handler, and writes what that makes of it into the
/// packet and into the stream.
fn hand_over<RF: TransportPacketParent, AH: ApplicationDataSnarfHandler>(
    rf: &mut RF,
    new_data_len: usize,
    writable: DequeSliceMut<u8>,
    is_client: bool,
    session_id: u64,
    handler: &mut AH,
) -> (r: (InterceptVerdict, Ghost<DataCall>))
    requires
        is_followable(*old(rf)),
        new_data_len <= crate::tcp_tracker::data_of(old(rf).segment()).len(),
        writable@.len() == new_data_len,
    ensures
        crate::tcp_step::is_call_for(
            r.1@,
            crate::packet::packet_view(*old(rf)),
            new_data_len as int,
            is_client,
            session_id,
        ),
        r.1@.verdict == r.0,
        AH::data_handled(old(handler), r.1@, final(handler)),
        crate::packet::packet_view(*final(rf)) == crate::tcp_step::with_new_data(
            crate::packet::packet_view(*old(rf)),
            r.1@.out,
        ),
        is_followable(*final(rf)),
        r.1@.out == final(writable.front)@ + final(writable.back)@,
        final(writable.front)@.len() == old(writable.front)@.len(),
        final(writable.back)@.len() == old(writable.back)@.len(),
{
    let ghost segment = rf.segment();
    let (_net_header, tcp_payload) = rf.split();
    let header_len: usize = tcp_header_len(tcp_payload);
    let old_data_len: usize = tcp_payload.len() - header_len - new_data_len;
    let seq: u32 = tcp_seq(tcp_payload).wrapping_add(old_data_len as u32);
    let (_passed, new_data) = tcp_payload.split_at_mut(header_len + old_data_len);
    let ghost data = new_data@;
    let verdict = handler.on_data(session_id, is_client, seq as i64, new_data);
    let mut writable = writable;
    writable.copy_from_slice(new_data);
    let ghost out = new_data@;
    proof {
        let replaced = crate::tcp_tracker::data_of(segment).take(old_data_len as int) + out;
        crate::tcp_tracker::lemma_data_replaced(segment, replaced);
        assert(segment.take(segment.len() - out.len()) + out =~= crate::tcp_tracker::header_of(
            segment,
        ) + replaced);
        assert(rf.segment() =~= segment.take(segment.len() - out.len()) + out);
    }
    (
        verdict,
        Ghost(DataCall { session_id, is_client, counter: seq as i64, data, out, verdict }),
    )
}

/// Drops packets that are let go, and shows them to the spy.
fn drop_all<RF: TransportPacketParent, TSpy: TransportSnarfSpy>(
    released: Vec<FutureVerdict<'static, RF>>,
    is_client: bool,
    session_id: u64,
    spy: &mut TSpy,
) -> (r: Vec<SnarfInterceptVerdict<RF>>)
    requires
        forall|i: int| 0 <= i < released@.len() ==> is_followable((#[trigger] released@[i]).rf),
    ensures
        all_splittable(r@),
        crate::packet::verdict_views(r@) == crate::tcp_step::all_dropped(packets_of(released@)),
        crate::handler::transport_trace(
            *old(spy),
            crate::tcp_step::after_events(
                packets_of(released@),
                is_client,
                session_id,
                InterceptVerdict::Drop,
            ),
            *final(spy),
        ),
{
    let ghost all = released@;
    let ghost first_spy = *spy;
    let mut released = released;
    let mut verdicts: Vec<SnarfInterceptVerdict<RF>> = Vec::new();
    assert(crate::tcp_step::after_events(
        packets_of(all).take(0),
        is_client,
        session_id,
        InterceptVerdict::Drop,
    ) =~= seq![]);
    while released.len() > 0
        invariant
            released@.len() + verdicts@.len() == all.len(),
            released@ == all.skip(verdicts@.len() as int),
            forall|i: int| 0 <= i < all.len() ==> is_followable((#[trigger] all[i]).rf),
            all_splittable(verdicts@),
            crate::packet::verdict_views(verdicts@) == crate::tcp_step::all_dropped(
                packets_of(all).take(verdicts@.len() as int),
            ),
            crate::handler::transport_trace(
                first_spy,
                crate::tcp_step::after_events(
                    packets_of(all).take(verdicts@.len() as int),
                    is_client,
                    session_id,
                    InterceptVerdict::Drop,
                ),
                *spy,
            ),
        decreases released@.len(),
    {
        let ghost n = verdicts@.len() as int;
        let ghost mid_spy = *spy;
        let mut vd = released.remove(0);
        assert(vd == all[n]);
        let ghost packet = crate::packet::packet_view(vd.rf);
        assert(packet == packets_of(all)[n]);
        show_after(&mut vd.rf, is_client, session_id, &InterceptVerdict::Drop, spy);
        let ghost seen = verdicts@;
        verdicts.push(SnarfInterceptVerdict::Drop(vd.rf));
        proof {
            let events = crate::tcp_step::after_events(
                packets_of(all).take(n),
                is_client,
                session_id,
                InterceptVerdict::Drop,
            );
            let event = crate::tcp_step::after_event(
                packet,
                is_client,
                session_id,
                InterceptVerdict::Drop,
            );
            crate::handler::lemma_transport_trace_push(first_spy, events, mid_spy, event, *spy);
            assert(crate::tcp_step::after_events(
                packets_of(all).take(n + 1),
                is_client,
                session_id,
                InterceptVerdict::Drop,
            ) =~= events.push(event));
            crate::packet::lemma_verdict_views_push(seen, verdicts@.last());
            assert(crate::tcp_step::all_dropped(packets_of(all).take(n + 1))
                =~= crate::tcp_step::all_dropped(packets_of(all).take(n)).push(
                crate::packet::VerdictView::Drop(packet),
            ));
        }
    }
    assert(packets_of(all).take(verdicts@.len() as int) =~= packets_of(all));
    verdicts
}

/// Accepts packets that are let go: hands their new data to the data handler, writes what that
/// makes of it into the packets and into the stream, and shows them to the spy.
fn accept_all<
    'a,
    RF: TransportPacketParent,
    AH: ApplicationDataSnarfHandler,
    TSpy: TransportSnarfSpy,
>(
    released: Vec<FutureVerdict<'a, RF>>,
    Ghost(releases): Ghost<Seq<Release>>,
    is_client: bool,
    session_id: u64,
    handler: &mut AH,
    spy: &mut TSpy,
) -> (r: (Vec<SnarfInterceptVerdict<RF>>, Ghost<Seq<DataCall>>))
    requires
        released@.len() == releases.len(),
        forall|i: int|
            0 <= i < released@.len() ==> {
                &&& is_followable((#[trigger] released@[i]).rf)
                &&& crate::packet::packet_view(released@[i].rf) == releases[i].packet
                &&& released@[i].new_data_len == releases[i].new_data_len
                &&& released@[i].new_data_len <= crate::tcp_tracker::data_of(
                    released@[i].rf.segment(),
                ).len()
                &&& released@[i].writable@.len() == releases[i].new_data_len
            },
    ensures
        all_splittable(r.0@),
        crate::tcp_step::are_calls_for(r.1@, releases, is_client, session_id),
        forall|i: int|
            0 <= i < releases.len() ==> {
                &&& (#[trigger] r.1@[i]).out == final(released@[i].writable.front)@
                    + final(released@[i].writable.back)@
                &&& final(released@[i].writable.front)@.len() == released@[i].writable.front@.len()
                &&& final(released@[i].writable.back)@.len() == released@[i].writable.back@.len()
            },
        crate::packet::verdict_views(r.0@) == crate::tcp_step::all_accepted(
            crate::tcp_step::kept_packets(releases, r.1@),
        ),
        crate::handler::data_trace(*old(handler), r.1@, *final(handler)),
        crate::handler::transport_trace(
            *old(spy),
            crate::tcp_step::after_events(
                crate::tcp_step::kept_packets(releases, r.1@),
                is_client,
                session_id,
                InterceptVerdict::Accept,
            ),
            *final(spy),
        ),
{
    let ghost first_handler = *handler;
    let ghost first_spy = *spy;
    let ghost all = released@;
    let mut released = released;
    let mut verdicts: Vec<SnarfInterceptVerdict<RF>> = Vec::new();
    let ghost mut calls: Seq<DataCall> = seq![];
    let ghost mut packets: Seq<PacketView> = seq![];
    assert(crate::tcp_step::after_events(
        packets,
        is_client,
        session_id,
        InterceptVerdict::Accept,
    ) =~= seq![]);
    while released.len() > 0
        invariant
            released@.len() + verdicts@.len() == all.len(),
            released@ == all.skip(verdicts@.len() as int),
            calls.len() == verdicts@.len(),
            packets.len() == verdicts@.len(),
            all.len() == releases.len(),
            forall|i: int|
                0 <= i < all.len() ==> {
                    &&& is_followable((#[trigger] all[i]).rf)
                    &&& crate::packet::packet_view(all[i].rf) == releases[i].packet
                    &&& all[i].new_data_len == releases[i].new_data_len
                    &&& all[i].new_data_len <= crate::tcp_tracker::data_of(
                        all[i].rf.segment(),
                    ).len()
                    &&& all[i].writable@.len() == releases[i].new_data_len
                },
            forall|i: int|
                0 <= i < calls.len() ==> {
                    &&& crate::tcp_step::is_call_for(
                        #[trigger] calls[i],
                        releases[i].packet,
                        releases[i].new_data_len,
                        is_client,
                        session_id,
                    )
                    &&& packets[i] == crate::tcp_step::with_new_data(
                        releases[i].packet,
                        calls[i].out,
                    )
                    &&& calls[i].out == final(all[i].writable.front)@
                        + final(all[i].writable.back)@
                    &&& final(all[i].writable.front)@.len() == all[i].writable.front@.len()
                    &&& final(all[i].writable.back)@.len() == all[i].writable.back@.len()
                },
            all_splittable(verdicts@),
            crate::packet::verdict_views(verdicts@) == crate::tcp_step::all_accepted(packets),
            crate::handler::data_trace(first_handler, calls, *handler),
            crate::handler::transport_trace(
                first_spy,
                crate::tcp_step::after_events(
                    packets,
                    is_client,
                    session_id,
                    InterceptVerdict::Accept,
                ),
                *spy,
            ),
        decreases released@.len(),
    {
        let ghost n = verdicts@.len() as int;
        let ghost middle_spy = *spy;
        let ghost middle_handler = *handler;
        let vd = released.remove(0);
        assert(vd == all[n]);
        let mut parent = vd.rf;
        let (_verdict, Ghost(call)) = hand_over(
            &mut parent,
            vd.new_data_len,
            vd.writable,
            is_client,
            session_id,
            handler,
        );
        let ghost packet = crate::packet::packet_view(parent);
        show_after(
            &mut parent,
            is_client,
            session_id,
            &InterceptVerdict::Accept,
            spy,
        );
        let ghost earlier = verdicts@;
        verdicts.push(SnarfInterceptVerdict::Accept(parent));
        proof {
            crate::handler::lemma_data_trace_push(
                first_handler,
                calls,
                middle_handler,
                call,
                *handler,
            );
            let event = crate::tcp_step::after_event(
                packet,
                is_client,
                session_id,
                InterceptVerdict::Accept,
            );
            let events = crate::tcp_step::after_events(
                packets,
                is_client,
                session_id,
                InterceptVerdict::Accept,
            );
            crate::handler::lemma_transport_trace_push(
                first_spy,
                events,
                middle_spy,
                event,
                *spy,
            );
            crate::packet::lemma_verdict_views_push(earlier, verdicts@.last());
            assert(crate::tcp_step::all_accepted(packets.push(packet))
                =~= crate::tcp_step::all_accepted(packets).push(
                crate::packet::VerdictView::Accept(packet),
            ));
            assert(crate::tcp_step::after_events(
                packets.push(packet),
                is_client,
                session_id,
                InterceptVerdict::Accept,
            ) =~= events.push(event));
            calls = calls.push(call);
            packets = packets.push(packet);
        }
    }
    assert(packets =~= crate::tcp_step::kept_packets(releases, calls));
    (verdicts, Ghost(calls))
}

/// Holds a packet against its connection.
fn read_packet<NetAddr: NetworkAddr, RF: TransportPacketParent>(
    session: &mut TcpSession<NetAddr, RF>,
    src_net: NetAddr,
    src_port: u16,
    rf: &mut RF,
) -> (r: WindInput)
    requires
        old(session).wf(),
        is_followable(*old(rf)),
    ensures
        final(session).wf(),
        final(session)@ == old(session)@.placed(src_net, src_port),
        r == old(session)@.plunged(src_net, src_port, old(rf).segment()),
        crate::packet::packet_view(*final(rf)) == (PacketView {
            segment: old(session)@.plunged_segment(src_net, src_port, old(rf).segment()),
            ..crate::packet::packet_view(*old(rf))
        }),
        is_followable(*final(rf)),
{
    let ghost segment = rf.segment();
    let ghost data = crate::tcp_tracker::data_of(segment);
    let ghost direction = session@.direction(session@.from_client(src_net, src_port));
    let (_net_header, tcp_payload) = rf.split();
    match session.plunge_tcp_packet(src_net, src_port, tcp_payload) {
        Ok(input) => {
            proof {
                let rewritten = direction.plunged_data(
                    segment[13],
                    crate::tcp_util::seq_of(segment) as u32,
                    data,
                );
                crate::tcp_tracker::lemma_data_replaced(segment, rewritten);
            }
            input
        },
        Err(_) => vstd::pervasive::unreached(),
    }
}

/// Follows TCP connections.
#[derive(Debug)]
pub struct SnarfTcp<
    AH: ApplicationDataSnarfHandler,
    TSpy: TransportSnarfSpy,
    NetAddr: NetworkAddr,
    RF: TransportPacketParent,
> {
    pub sessions: TcpSessionMap<NetAddr, RF>,
    pub transport_spy: TSpy,
    pub app_data_handler: AH,
    pub last_used_key: Option<(TcpAddr<NetAddr>, TcpAddr<NetAddr>)>,
    pub last_is_client: bool,
}

impl<
    AH: ApplicationDataSnarfHandler,
    TSpy: TransportSnarfSpy,
    NetAddr: NetworkAddr,
    RF: TransportPacketParent,
> SnarfTcp<AH, TSpy, NetAddr, RF> {
    /// The state as it is seen from outside.
    pub open spec fn state(&self) -> TcpState<NetAddr> {
        TcpState {
            sessions: self.sessions@,
            id_counter: self.sessions.id_counter,
            last_used_key: self.last_used_key,
            last_is_client: self.last_is_client,
        }
    }

    pub open spec fn wf(&self) -> bool {
        self.sessions.wf()
    }

    /// Whether the connection that was last used is still followed, if there is one.
    pub open spec fn follows_last(&self) -> bool {
        match self.last_used_key {
            Some((src, dst)) => self.sessions@.contains_key(crate::addr::session_key(src, dst)),
            None => true,
        }
    }

    /// What is seen from outside can have come about.
    pub proof fn lemma_valid(&self)
        requires
            self.wf(),
        ensures
            crate::tcp_laws::valid_state(self.state()),
    {
        assert forall|key: NetAddrPair<NetAddr>| #[trigger]
            self.state().sessions.contains_key(key) implies crate::tcp_laws::valid_session(
            self.state().sessions[key],
        ) by {
            self.sessions.lemma_valid(key);
        }
    }

    /// A handler that follows no connection yet.
    pub fn new_from(app_data_handler: AH, transport_spy: TSpy) -> (r: Self)
        ensures
            r.wf(),
            r.app_data_handler == app_data_handler,
            r.transport_spy == transport_spy,
            r.state() == (TcpState {
                sessions: Map::empty(),
                id_counter: 0,
                last_used_key: None::<NetAddrPair<NetAddr>>,
                last_is_client: false,
            }),
    {
        Self {
            sessions: TcpSessionMap::new(),
            transport_spy,
            app_data_handler,
            last_used_key: None,
            last_is_client: false,
        }
    }

    /// The connection that was last used, if there is one.
    fn get_last_accessed_session(
        last_used_key: Option<(TcpAddr<NetAddr>, TcpAddr<NetAddr>)>,
        sessions: &mut TcpSessionMap<NetAddr, RF>,
    ) -> (r: Option<&mut TcpSessionWithId<NetAddr, RF>>)
        requires
            old(sessions).wf(),
            last_used_key matches Some((src, dst)) ==> old(sessions)@.contains_key(
                crate::addr::session_key(src, dst),
            ),
        ensures
            last_used_key is None <==> r is None,
            r is None ==> *final(sessions) == *old(sessions),
            last_used_key matches Some((src, dst)) ==> r matches Some(entry) ==> {
                let key = crate::addr::session_key(src, dst);
                &&& final(sessions)@ == old(sessions)@.insert(key, final(entry)@)
                &&& entry@ == old(sessions)@[key]
                &&& final(sessions).id_counter == old(sessions).id_counter
                &&& entry.session.wf()
                &&& final(entry).session.wf() && final(entry).session_id == entry.session_id
                    ==> final(sessions).wf()
            },
    {
        match last_used_key {
            None => None,
            Some((src_addr, dst_addr)) => Some(sessions.get_session(src_addr, dst_addr)),
        }
    }

    /// Drops the packets that the connection which was last used holds back.
    fn drain_futures_from_last_session(&mut self) -> (r: Vec<SnarfInterceptVerdict<RF>>)
        requires
            old(self).wf(),
            old(self).follows_last(),
        ensures
            final(self).wf(),
            final(self).app_data_handler == old(self).app_data_handler,
            all_splittable(r@),
            old(self).last_used_key is None ==> *final(self) == *old(self) && r@.len() == 0,
            old(self).last_used_key matches Some((src, dst)) ==> {
                let key = crate::addr::session_key(src, dst);
                let session = old(self).sessions@[key];
                &&& crate::packet::verdict_views(r@) == crate::tcp_step::drained_verdicts(session)
                &&& crate::handler::transport_trace(
                    old(self).transport_spy,
                    crate::tcp_step::drained_events(session),
                    final(self).transport_spy,
                )
                &&& final(self).state() == (TcpState {
                    sessions: old(self).sessions@.insert(key, crate::tcp_step::drained(session)),
                    ..old(self).state()
                })
            },
    {
        let ghost before = *self;
        let entry = match Self::get_last_accessed_session(self.last_used_key, &mut self.sessions) {
            Some(entry) => entry,
            None => {
                return Vec::new();
            },
        };
        let ghost session = entry@;
        let session_id: u64 = entry.session_id;
        let released = entry.session.drain_nowrite_future_queue(true);
        assert(packets_of(released@) =~= session.session.client.queue);
        let mut verdicts = drop_all(released, true, session_id, &mut self.transport_spy);
        let ghost first = verdicts@;
        let ghost middle_spy = self.transport_spy;
        let released = entry.session.drain_nowrite_future_queue(false);
        assert(packets_of(released@) =~= session.session.server.queue);
        let mut more = drop_all(released, false, session_id, &mut self.transport_spy);
        let ghost second = more@;
        verdicts.append(&mut more);
        proof {
            crate::packet::lemma_verdict_views_join(first, second);
            lemma_all_splittable_join(first, second);
            crate::handler::lemma_transport_trace_join(
                before.transport_spy,
                crate::tcp_step::after_events(
                    session.session.client.queue,
                    true,
                    session_id,
                    InterceptVerdict::Drop,
                ),
                middle_spy,
                crate::tcp_step::after_events(
                    session.session.server.queue,
                    false,
                    session_id,
                    InterceptVerdict::Drop,
                ),
                self.transport_spy,
            );
        }
        verdicts
    }

    /// Lets the packets go that the connection which was last used holds back and that can be let go
    /// at once. Their data is handed on; what the data handler decides about them has no effect.
    /// Gives the calls of the data handler beside the verdicts.
    fn let_go_round(&mut self) -> (r: (
        Vec<SnarfInterceptVerdict<RF>>,
        Ghost<Seq<DataCall>>,
    ))
        requires
            old(self).wf(),
            old(self).follows_last(),
        ensures
            final(self).wf(),
            all_splittable(r.0@),
            old(self).last_used_key is None ==> *final(self) == *old(self) && r.0@.len() == 0
                && r.1@.len() == 0,
            old(self).last_used_key matches Some((src, dst)) ==> {
                let key = crate::addr::session_key(src, dst);
                let session = old(self).sessions@[key];
                let is_client = old(self).last_is_client;
                let releases = session.session.direction(is_client).releases(0);
                let packets = crate::tcp_step::kept_packets(releases, r.1@);
                &&& crate::tcp_step::are_calls_for(r.1@, releases, is_client, session.session_id)
                &&& crate::handler::data_trace(
                    old(self).app_data_handler,
                    r.1@,
                    final(self).app_data_handler,
                )
                &&& crate::packet::verdict_views(r.0@) == crate::tcp_step::all_accepted(packets)
                &&& crate::handler::transport_trace(
                    old(self).transport_spy,
                    crate::tcp_step::after_events(
                        packets,
                        is_client,
                        session.session_id,
                        InterceptVerdict::Accept,
                    ),
                    final(self).transport_spy,
                )
                &&& final(self).state() == (TcpState {
                    sessions: old(self).sessions@.insert(
                        key,
                        (NumberedSessionView {
                            session: session.session.with_direction(
                                is_client,
                                crate::tcp_step::round_over(
                                    session.session.direction(is_client),
                                    r.1@,
                                ),
                            ),
                            ..session
                        }),
                    ),
                    ..old(self).state()
                })
            },
    {
        let ghost before = *self;
        let is_client: bool = self.last_is_client;
        let entry = match Self::get_last_accessed_session(self.last_used_key, &mut self.sessions) {
            Some(entry) => entry,
            None => {
                let ghost no_calls: Seq<DataCall> = seq![];
                return (Vec::new(), Ghost(no_calls));
            },
        };
        let ghost session = entry@;
        let session_id: u64 = entry.session_id;
        let ghost releases = session.session.direction(is_client).releases(0);
        let released = entry.session.verdict_kept(is_client);
        let ghost all = released@;
        let (verdicts, Ghost(calls)) = accept_all(
            released,
            Ghost(releases),
            is_client,
            session_id,
            &mut self.app_data_handler,
            &mut self.transport_spy,
        );
        proof {
            let parts = crate::tcp_step::outs(calls);
            assert(parts.len() == all.len());
            assert forall|i: int| 0 <= i < all.len() implies {
                &&& #[trigger] parts[i] == final(all[i].writable.front)@
                    + final(all[i].writable.back)@
                &&& final(all[i].writable.front)@.len() == all[i].writable.front@.len()
                &&& final(all[i].writable.back)@.len() == all[i].writable.back@.len()
            } by {
                assert(parts[i] == calls[i].out);
            }
            let _ = crate::tcp_tracker::joined(parts);
        }
        (verdicts, Ghost(calls))
    }

    /// How many packets the direction that was last used holds back.
    spec fn last_held(&self) -> nat {
        match self.last_used_key {
            Some((src, dst)) => self.sessions@[crate::addr::session_key(
                src,
                dst,
            )].session.direction(self.last_is_client).queue.len(),
            None => 0,
        }
    }

    /// Lets all packets go that the connection which was last used holds back and that do not come
    /// later any more: when their data has been handed on, others may no longer come later either.
    /// Gives the calls of the data handler beside the verdicts.
    fn transport_packet_verdict_kept(&mut self) -> (r: (
        Vec<SnarfInterceptVerdict<RF>>,
        Ghost<Seq<DataCall>>,
    ))
        requires
            old(self).wf(),
            old(self).follows_last(),
        ensures
            final(self).wf(),
            all_splittable(r.0@),
            old(self).last_used_key is None ==> *final(self) == *old(self) && r.0@.len() == 0
                && r.1@.len() == 0,
            old(self).last_used_key matches Some((src, dst)) ==> {
                let key = crate::addr::session_key(src, dst);
                let session = old(self).sessions@[key];
                let is_client = old(self).last_is_client;
                let direction = session.session.direction(is_client);
                let packets = crate::tcp_step::let_go_packets(direction, r.1@);
                &&& crate::tcp_step::let_go_calls_fit(
                    direction,
                    r.1@,
                    is_client,
                    session.session_id,
                )
                &&& crate::handler::data_trace(
                    old(self).app_data_handler,
                    r.1@,
                    final(self).app_data_handler,
                )
                &&& crate::packet::verdict_views(r.0@) == crate::tcp_step::all_accepted(packets)
                &&& crate::handler::transport_trace(
                    old(self).transport_spy,
                    crate::tcp_step::after_events(
                        packets,
                        is_client,
                        session.session_id,
                        InterceptVerdict::Accept,
                    ),
                    final(self).transport_spy,
                )
                &&& final(self).state() == (TcpState {
                    sessions: old(self).sessions@.insert(
                        key,
                        (NumberedSessionView {
                            session: session.session.with_direction(
                                is_client,
                                crate::tcp_step::let_go_direction(direction, r.1@),
                            ),
                            ..session
                        }),
                    ),
                    ..old(self).state()
                })
            },
        decreases old(self).last_held(),
    {
        let ghost before = *self;
        let (mut verdicts, Ghost(calls)) = self.let_go_round();
        if verdicts.len() == 0 {
            proof {
                if let Some((src, dst)) = before.last_used_key {
                    let key = crate::addr::session_key(src, dst);
                    before.sessions.lemma_valid(key);
                    let direction = before.sessions@[key].session.direction(before.last_is_client);
                    let releases = direction.releases(0);
                    let packets = crate::tcp_step::kept_packets(releases, calls);
                    assert(crate::packet::verdict_views(verdicts@).len() == 0);
                    assert(crate::tcp_step::all_accepted(packets).len() == releases.len());
                    assert(crate::tcp_step::let_go_packets(direction, calls) =~= packets);
                    assert(crate::tcp_step::outs(calls) =~= seq![]);
                    crate::tcp_tracker::lemma_nothing_released(direction);
                }
            }
            return (verdicts, Ghost(calls));
        }
        let ghost middle = *self;
        let ghost first_verdicts = verdicts@;
        proof {
            if let Some((src, dst)) = before.last_used_key {
                let key = crate::addr::session_key(src, dst);
                let direction = before.sessions@[key].session.direction(before.last_is_client);
                crate::tcp_tracker::lemma_release_lens(direction, 0);
                let packets = crate::tcp_step::kept_packets(direction.releases(0), calls);
                assert(crate::packet::verdict_views(first_verdicts).len()
                    == first_verdicts.len());
                assert(crate::tcp_step::all_accepted(packets).len() == packets.len());
            }
        }
        let (mut more, Ghost(more_calls)) = self.transport_packet_verdict_kept();
        let ghost more_verdicts = more@;
        verdicts.append(&mut more);
        let ghost all_calls = calls + more_calls;
        proof {
            if let Some((src, dst)) = before.last_used_key {
                let key = crate::addr::session_key(src, dst);
                let session = before.sessions@[key];
                let is_client = before.last_is_client;
                let direction = session.session.direction(is_client);
                let releases = direction.releases(0);
                let n = releases.len() as int;
                let packets = crate::tcp_step::kept_packets(releases, calls);
                let next = crate::tcp_step::round_over(direction, calls);
                let more_packets = crate::tcp_step::let_go_packets(next, more_calls);
                assert(all_calls.take(n) =~= calls);
                assert(all_calls.skip(n) =~= more_calls);
                crate::handler::lemma_data_trace_join(
                    before.app_data_handler,
                    calls,
                    middle.app_data_handler,
                    more_calls,
                    self.app_data_handler,
                );
                let first_events = crate::tcp_step::after_events(
                    packets,
                    is_client,
                    session.session_id,
                    InterceptVerdict::Accept,
                );
                let more_events = crate::tcp_step::after_events(
                    more_packets,
                    is_client,
                    session.session_id,
                    InterceptVerdict::Accept,
                );
                crate::handler::lemma_transport_trace_join(
                    before.transport_spy,
                    first_events,
                    middle.transport_spy,
                    more_events,
                    self.transport_spy,
                );
                assert(crate::tcp_step::after_events(
                    packets + more_packets,
                    is_client,
                    session.session_id,
                    InterceptVerdict::Accept,
                ) =~= first_events + more_events);
                crate::packet::lemma_verdict_views_join(first_verdicts, more_verdicts);
                assert(crate::tcp_step::all_accepted(packets + more_packets)
                    =~= crate::tcp_step::all_accepted(packets) + crate::tcp_step::all_accepted(
                    more_packets,
                ));
                lemma_all_splittable_join(first_verdicts, more_verdicts);
                assert(self.state().sessions =~= before.sessions@.insert(
                    key,
                    NumberedSessionView {
                        session: session.session.with_direction(
                            is_client,
                            crate::tcp_step::let_go_direction(direction, all_calls),
                        ),
                        ..session
                    },
                ));
            }
        }
        (verdicts, Ghost(all_calls))
    }

    /// Lets a packet leave that is not held back: ends its connection or lets the packets go that
    /// waited for it, shows them to the spy, and adds the verdicts to those that are there.
    #[verifier::rlimit(30)]
    fn leave(
        &mut self,
        rf: RF,
        this_verdict: InterceptVerdict,
        remove_session: bool,
        session_id: u64,
        verdicts: Vec<SnarfInterceptVerdict<RF>>,
        Ghost(arrival): Ghost<Arrival<NetAddr>>,
        Ghost(reading): Ghost<Reading<NetAddr>>,
        Ghost(own): Ghost<Option<DataCall>>,
    ) -> (r: (Vec<SnarfInterceptVerdict<RF>>, Ghost<Seq<DataCall>>))
        requires
            old(self).wf(),
            is_followable(rf),
            all_splittable(verdicts@),
            crate::packet::verdict_views(verdicts@) == reading.verdicts,
            !reading.keeps(),
            ({
                let settled = reading.settled(own);
                &&& crate::packet::packet_view(rf) == settled.packet
                &&& this_verdict == settled.verdict
                &&& remove_session == settled.removes
                &&& session_id == reading.session.session_id
                &&& !reading.sessions.contains_key(arrival.key())
                &&& old(self).state() == (TcpState {
                    sessions: reading.sessions.insert(arrival.key(), settled.session),
                    id_counter: reading.id_counter,
                    last_used_key: Some((arrival.src(), arrival.dst())),
                    last_is_client: reading.input.is_client,
                })
            }),
        ensures
            final(self).wf(),
            all_splittable(r.0@),
            if remove_session {
                r.1@.len() == 0
            } else {
                crate::tcp_step::let_go_calls_fit(
                    crate::tcp_step::settled_direction(reading, own),
                    r.1@,
                    reading.input.is_client,
                    session_id,
                )
            },
            crate::handler::data_trace(
                old(self).app_data_handler,
                r.1@,
                final(self).app_data_handler,
            ),
            crate::handler::transport_trace(
                old(self).transport_spy,
                crate::tcp_step::leaving_events(reading, own, r.1@),
                final(self).transport_spy,
            ),
            crate::packet::verdict_views(r.0@) == reading.verdicts
                + crate::tcp_step::leaving_verdicts(reading, own, r.1@),
            final(self).state() == crate::tcp_step::outcome(arrival, reading, own, r.1@).state,
    {
        let ghost before = *self;
        let ghost settled = reading.settled(own);
        let ghost mut kept: Seq<DataCall> = seq![];
        let ghost mut events: Seq<TransportEvent> = seq![];
        let ghost read_verdicts = verdicts@;
        let is_client: bool = self.last_is_client;
        let mut rf = rf;
        let mut verdicts = verdicts;
        let mut more: Vec<SnarfInterceptVerdict<RF>>;
        if remove_session {
            more = self.drain_futures_from_last_session();
            if let Some((src_addr, dst_addr)) = self.last_used_key {
                let _ = self.sessions.remove_session(src_addr, dst_addr);
            }
            proof {
                events = crate::tcp_step::drained_events(settled.session);
                assert(self.state().sessions =~= reading.sessions);
            }
        } else {
            let (accepted, Ghost(calls)) = self.transport_packet_verdict_kept();
            more = accepted;
            proof {
                kept = calls;
                events = crate::tcp_step::after_events(
                    crate::tcp_step::let_go_packets(
                        crate::tcp_step::settled_direction(reading, own),
                        kept,
                    ),
                    is_client,
                    session_id,
                    InterceptVerdict::Accept,
                );
                assert(self.state().sessions =~= reading.sessions.insert(
                    arrival.key(),
                    crate::tcp_step::left_session(reading, own, kept),
                ));
            }
        }
        let ghost more_verdicts = more@;
        verdicts.append(&mut more);
        let ghost middle_spy = self.transport_spy;
        show_after(&mut rf, is_client, session_id, &this_verdict, &mut self.transport_spy);
        let ghost after = crate::tcp_step::after_event(
            settled.packet,
            is_client,
            session_id,
            settled.verdict,
        );
        proof {
            crate::handler::lemma_transport_trace_push(
                before.transport_spy,
                events,
                middle_spy,
                after,
                self.transport_spy,
            );
        }
        if remove_session {
            let ghost after_spy = self.transport_spy;
            self.transport_spy.close(false, session_id);
            let ghost closed_spy = self.transport_spy;
            self.transport_spy.close(true, session_id);
            proof {
                let first = TransportEvent::Close { is_client: false, session_id };
                let second = TransportEvent::Close { is_client: true, session_id };
                crate::handler::lemma_transport_trace_push(
                    before.transport_spy,
                    events.push(after),
                    after_spy,
                    first,
                    closed_spy,
                );
                crate::handler::lemma_transport_trace_push(
                    before.transport_spy,
                    events.push(after).push(first),
                    closed_spy,
                    second,
                    self.transport_spy,
                );
                assert(events.push(after).push(first).push(second)
                    =~= crate::tcp_step::leaving_events(reading, own, kept));
            }
        } else {
            assert(events.push(after) =~= crate::tcp_step::leaving_events(reading, own, kept));
        }
        let ghost earlier = verdicts@;
        match this_verdict {
            InterceptVerdict::Accept => {
                verdicts.push(SnarfInterceptVerdict::Accept(rf));
            },
            InterceptVerdict::Drop => {
                verdicts.push(SnarfInterceptVerdict::Drop(rf));
            },
        }
        proof {
            crate::packet::lemma_verdict_views_join(read_verdicts, more_verdicts);
            crate::packet::lemma_verdict_views_push(earlier, verdicts@.last());
            assert(crate::packet::verdict_views(verdicts@) =~= reading.verdicts
                + crate::tcp_step::leaving_verdicts(reading, own, kept));
            lemma_all_splittable_join(read_verdicts, more_verdicts);
        }
        (verdicts, Ghost(kept))
    }

    /// The packet and where it travels.
    pub open spec fn arrival(src_net: NetAddr, dst_net: NetAddr, rf: RF) -> Arrival<NetAddr> {
        Arrival { src_net, dst_net, packet: crate::packet::packet_view(rf) }
    }

    /// Finds the connection of a packet, or opens one, and holds the packet against it.
    fn read(
        &mut self,
        src_addr: TcpAddr<NetAddr>,
        dst_addr: TcpAddr<NetAddr>,
        rf: &mut RF,
    ) -> (r: (Vec<SnarfInterceptVerdict<RF>>, u64, WindInput, Ghost<SessionView<NetAddr>>))
        requires
            old(self).wf(),
            is_followable(*old(rf)),
            ({
                let arrival = Self::arrival(src_addr.net, dst_addr.net, *old(rf));
                &&& src_addr == arrival.src()
                &&& dst_addr == arrival.dst()
                &&& crate::tcp_step::opens(old(self).state(), arrival)
                    ==> old(self).sessions.id_counter < u64::MAX
            }),
        ensures
            final(self).wf(),
            all_splittable(r.0@),
            is_followable(*final(rf)),
            r.3@.is_fresh(),
            final(self).app_data_handler == old(self).app_data_handler,
            ({
                let arrival = Self::arrival(src_addr.net, dst_addr.net, *old(rf));
                let reading = crate::tcp_step::reading(old(self).state(), arrival, r.3@);
                &&& final(self).state() == (TcpState {
                    sessions: reading.sessions.insert(arrival.key(), reading.session),
                    id_counter: reading.id_counter,
                    last_used_key: Some((src_addr, dst_addr)),
                    ..old(self).state()
                })
                &&& crate::packet::packet_view(*final(rf)) == reading.packet
                &&& r.1 == reading.session.session_id
                &&& r.2 == reading.input
                &&& !reading.input.tracker_wind_input.result.new_connection
                &&& crate::packet::verdict_views(r.0@) == reading.verdicts
                &&& crate::handler::transport_trace(
                    old(self).transport_spy,
                    reading.events,
                    final(self).transport_spy,
                )
            }),
    {
        let ghost before = *self;
        let ghost arrival = Self::arrival(src_addr.net, dst_addr.net, *rf);
        let ghost key = arrival.key();
        let ghost segment = rf.segment();
        self.last_used_key = Some((src_addr, dst_addr));
        let entry = self.sessions.get_session(src_addr, dst_addr);
        let ghost found = entry@;
        let ghost fresh = if before.sessions@.contains_key(key) {
            SessionView {
                src_net: src_addr.net,
                src_port: 0,
                client: TrackerView::fresh(),
                server: TrackerView::fresh(),
                src_init: false,
                handshake_done: false,
                created: found.session.created,
            }
        } else {
            found.session
        };
        assert(found == crate::tcp_step::found_session(before.state(), arrival, fresh));
        let session_id: u64 = entry.session_id;
        show_before(rf, session_id, &mut self.transport_spy);
        let ghost shown = self.transport_spy;
        let ghost event = TransportEvent::Before {
            net_header: arrival.packet.net_header,
            transport_header: crate::tcp_tracker::header_of(segment),
            data: crate::tcp_tracker::data_of(segment),
            session_id,
        };
        proof {
            let none: Seq<TransportEvent> = seq![];
            assert(none.push(event) =~= seq![event]);
            crate::handler::lemma_transport_trace_push(
                before.transport_spy,
                none,
                before.transport_spy,
                event,
                shown,
            );
        }
        let input = read_packet(&mut entry.session, src_addr.net, src_addr.port, rf);
        if !input.tracker_wind_input.result.new_connection {
            assert(self.sessions@ =~= before.sessions@.remove(key).insert(
                key,
                crate::tcp_step::reading(before.state(), arrival, fresh).session,
            ));
            return (Vec::new(), session_id, input, Ghost(fresh));
        }
        assert(crate::tcp_step::reopens(before.state(), arrival));
        assert(rf.segment() =~= segment);
        assert(crate::packet::packet_view(*rf) == arrival.packet);
        let verdicts = self.drain_futures_from_last_session();
        proof {
            crate::handler::lemma_transport_trace_join(
                before.transport_spy,
                seq![event],
                shown,
                crate::tcp_step::drained_events(found),
                self.transport_spy,
            );
        }
        let _ = self.sessions.remove_session(src_addr, dst_addr);
        let entry = self.sessions.get_session(src_addr, dst_addr);
        let ghost fresh = entry@.session;
        let session_id: u64 = entry.session_id;
        let input = read_packet(&mut entry.session, src_addr.net, src_addr.port, rf);
        assert(self.sessions@ =~= before.sessions@.remove(key).insert(
            key,
            crate::tcp_step::reading(before.state(), arrival, fresh).session,
        ));
        (verdicts, session_id, input, Ghost(fresh))
    }

    /// Holds a packet back that comes later, if there is room in the queue.
    fn hold_back(
        &mut self,
        src_addr: TcpAddr<NetAddr>,
        dst_addr: TcpAddr<NetAddr>,
        is_client: bool,
        rf: RF,
        Ghost(reading): Ghost<Reading<NetAddr>>,
    ) -> (r: Result<(), RF>)
        requires
            old(self).wf(),
            is_followable(rf),
            ({
                let key = crate::addr::session_key(src_addr, dst_addr);
                &&& old(self).sessions@.contains_key(key)
                &&& old(self).sessions@[key] == reading.session
            }),
            is_client == reading.input.is_client,
            reading.is_future(),
            reading.direction().init,
            crate::packet::packet_view(rf) == reading.packet,
            crate::tcp_tracker::data_of(rf.segment()).len() > 0,
        ensures
            final(self).wf(),
            final(self).transport_spy == old(self).transport_spy,
            final(self).app_data_handler == old(self).app_data_handler,
            reading.keeps() ==> r is Ok && final(self).state() == (TcpState {
                sessions: old(self).sessions@.insert(
                    crate::addr::session_key(src_addr, dst_addr),
                    reading.kept(),
                ),
                ..old(self).state()
            }),
            !reading.keeps() ==> r == Err::<(), RF>(rf) && final(self).state()
                == old(self).state(),
    {
        let ghost before = *self;
        let entry = self.sessions.get_session(src_addr, dst_addr);
        match entry.session.add_future_payload(is_client, rf) {
            Ok(()) => Ok(()),
            Err((rf, _)) => {
                assert(self.sessions@ =~= before.sessions@);
                Err(rf)
            },
        }
    }

    /// Takes up a packet that does not come later, and hands its new data on, if it has any.
    fn settle(
        &mut self,
        src_addr: TcpAddr<NetAddr>,
        dst_addr: TcpAddr<NetAddr>,
        input: WindInput,
        rf: &mut RF,
        Ghost(reading): Ghost<Reading<NetAddr>>,
    ) -> (r: (InterceptVerdict, Ghost<Option<DataCall>>))
        requires
            old(self).wf(),
            is_followable(*old(rf)),
            ({
                let key = crate::addr::session_key(src_addr, dst_addr);
                &&& old(self).sessions@.contains_key(key)
                &&& old(self).sessions@[key] == reading.session
            }),
            input == reading.input,
            crate::packet::packet_view(*old(rf)) == reading.packet,
            !input.tracker_wind_input.result.is_future,
            !input.tracker_wind_input.result.new_connection,
            input.tracker_wind_input.result.new_data_len <= crate::tcp_tracker::data_of(
                old(rf).segment(),
            ).len(),
        ensures
            final(self).wf(),
            is_followable(*final(rf)),
            reading.own_call_fits(r.1@),
            r.0 == reading.settled(r.1@).verdict,
            crate::packet::packet_view(*final(rf)) == reading.settled(r.1@).packet,
            crate::handler::data_trace(
                old(self).app_data_handler,
                crate::tcp_step::own_calls(r.1@),
                final(self).app_data_handler,
            ),
            final(self).transport_spy == old(self).transport_spy,
            final(self).state() == (TcpState {
                sessions: old(self).sessions@.insert(
                    crate::addr::session_key(src_addr, dst_addr),
                    reading.settled(r.1@).session,
                ),
                ..old(self).state()
            }),
    {
        let ghost before = *self;
        let is_client: bool = input.is_client;
        let entry = self.sessions.get_session(src_addr, dst_addr);
        let session_id: u64 = entry.session_id;
        let rise_input = match entry.session.wind(input) {
            Ok((rise_input, _rewind_input)) => rise_input,
            Err(_) => vstd::pervasive::unreached(),
        };
        let rise_input = match rise_input {
            Some(rise_input) => rise_input,
            None => {
                let ghost no_call: Option<DataCall> = None;
                return (InterceptVerdict::Accept, Ghost(no_call));
            },
        };
        let ghost wound = entry.session@;
        let new_data_len: usize = rise_input.tracker_rise_input.new_data_len;
        let room = match entry.session.rise_tcp_packet(is_client, rise_input) {
            Ok(room) => room,
            Err(_) => vstd::pervasive::unreached(),
        };
        let (verdict, Ghost(call)) = hand_over(
            rf,
            new_data_len,
            room.writable,
            is_client,
            session_id,
            &mut self.app_data_handler,
        );
        proof {
            let none: Seq<DataCall> = seq![];
            assert(none.push(call) =~= seq![call]);
            crate::handler::lemma_data_trace_push(
                before.app_data_handler,
                none,
                before.app_data_handler,
                call,
                self.app_data_handler,
            );
            let _ = wound.direction(is_client).risen(call.out);
        }
        (verdict, Ghost(Some(call)))
    }
}

impl<
    NetAddr: NetworkAddr,
    TSpy: TransportSnarfSpy,
    AH: ApplicationDataSnarfHandler,
    RF: TransportPacketParent,
> SnarfTcp<AH, TSpy, NetAddr, RF> {
    /// Whether the packet turns the handler `pre` into `post` and gives these verdicts, where
    /// `fresh` is the connection that is opened, if one is, and `own` and `kept` are the calls of
    /// the data handler.
    pub open spec fn handled_as(
        pre: &Self,
        arrival: Arrival<NetAddr>,
        fresh: SessionView<NetAddr>,
        own: Option<DataCall>,
        kept: Seq<DataCall>,
        post: &Self,
        verdicts: Seq<SnarfInterceptVerdict<RF>>,
    ) -> bool {
        let reading = crate::tcp_step::reading(pre.state(), arrival, fresh);
        let outcome = crate::tcp_step::outcome(arrival, reading, own, kept);
        &&& fresh.is_fresh()
        &&& crate::tcp_step::calls_fit(reading, own, kept)
        &&& crate::handler::data_trace(
            pre.app_data_handler,
            crate::tcp_step::own_calls(own) + kept,
            post.app_data_handler,
        )
        &&& crate::handler::transport_trace(
            pre.transport_spy,
            outcome.events,
            post.transport_spy,
        )
        &&& post.state() == outcome.state
        &&& crate::packet::verdict_views(verdicts) == outcome.verdicts
        &&& all_splittable(verdicts)
        &&& post.wf()
    }
}

impl<
    AH: ApplicationDataSnarfHandler + Default,
    TSpy: TransportSnarfSpy + Default,
    NetAddr: NetworkAddr,
    RF: TransportPacketParent,
> Default for SnarfTcp<AH, TSpy, NetAddr, RF> {
    fn default() -> (r: Self)
        ensures
            r.wf(),
            call_ensures(AH::default, (), r.app_data_handler),
            call_ensures(TSpy::default, (), r.transport_spy),
            r.state() == (TcpState {
                sessions: Map::empty(),
                id_counter: 0,
                last_used_key: None::<NetAddrPair<NetAddr>>,
                last_is_client: false,
            }),
    {
        Self::new_from(AH::default(), TSpy::default())
    }
}

impl<
    NetAddr: NetworkAddr,
    TSpy: TransportSnarfSpy,
    AH: ApplicationDataSnarfHandler,
    RF: TransportPacketParent,
> TransportSnarfHandler<NetAddr, RF> for SnarfTcp<AH, TSpy, NetAddr, RF> {
    open spec fn takes_packet(&self, src_ip: NetAddr, dst_ip: NetAddr, rf: RF) -> bool {
        &&& self.wf()
        &&& is_followable(rf)
        &&& crate::tcp_step::opens(self.state(), Self::arrival(src_ip, dst_ip, rf))
            ==> self.sessions.id_counter < u64::MAX
    }

    open spec fn packet_handled(
        pre: &Self,
        src_ip: NetAddr,
        dst_ip: NetAddr,
        rf: RF,
        post: &Self,
        verdicts: Seq<SnarfInterceptVerdict<RF>>,
    ) -> bool {
        exists|fresh: SessionView<NetAddr>, own: Option<DataCall>, kept: Seq<DataCall>|
            #[trigger] Self::handled_as(
                pre,
                Self::arrival(src_ip, dst_ip, rf),
                fresh,
                own,
                kept,
                post,
                verdicts,
            )
    }

    #[verifier::rlimit(30)]
    fn on_transport_packet(&mut self, src_net: NetAddr, dst_net: NetAddr, rf: RF) -> (verdicts: Vec<
        SnarfInterceptVerdict<RF>,
    >) {
        let ghost before = *self;
        let ghost arrival = Self::arrival(src_net, dst_net, rf);
        let mut rf = rf;
        let (_net_header, tcp_payload) = rf.split();
        let src_addr = TcpAddr::new(src_net, tcp_src_port(tcp_payload));
        let dst_addr = TcpAddr::new(dst_net, tcp_dst_port(tcp_payload));
        assert(crate::packet::packet_view(rf) == arrival.packet);

        let (verdicts, session_id, input, Ghost(fresh)) = self.read(
            src_addr,
            dst_addr,
            &mut rf,
        );
        let ghost reading = crate::tcp_step::reading(before.state(), arrival, fresh);
        let is_client: bool = input.is_client;
        self.last_is_client = is_client;
        let mut remove_session: bool = input.tracker_wind_input.result.closing;
        let ghost mut own: Option<DataCall> = None;
        let this_verdict: InterceptVerdict;
        let mut rf = rf;
        // If packet is from future
        if input.tracker_wind_input.result.is_future {
            match self.hold_back(src_addr, dst_addr, is_client, rf, Ghost(reading)) {
                Err(rejected) => {
                    remove_session = true;
                    this_verdict = InterceptVerdict::Drop;
                    rf = rejected;
                },
                Ok(()) => {
                    let mut keep: Vec<SnarfInterceptVerdict<RF>> = Vec::new();
                    keep.push(SnarfInterceptVerdict::Keep);
                    proof {
                        let kept: Seq<DataCall> = seq![];
                        let outcome = crate::tcp_step::outcome(arrival, reading, own, kept);
                        assert(reading.keeps());
                        assert(self.state().sessions =~= outcome.state.sessions);
                        assert(crate::packet::verdict_views(keep@) =~= outcome.verdicts);
                        assert(crate::tcp_step::own_calls(own) + kept =~= seq![]);
                        assert(Self::handled_as(
                            &before,
                            arrival,
                            fresh,
                            own,
                            kept,
                            self,
                            keep@,
                        ));
                    }
                    return keep;
                },
            }
        } else {
            let (verdict, Ghost(call)) = self.settle(
                src_addr,
                dst_addr,
                input,
                &mut rf,
                Ghost(reading),
            );
            this_verdict = verdict;
            proof {
                own = call;
            }
        }
        let ghost settled_handler = self.app_data_handler;
        let ghost settled_spy = self.transport_spy;
        assert(self.state().sessions =~= reading.sessions.insert(
            arrival.key(),
            reading.settled(own).session,
        ));
        let (verdicts, Ghost(kept)) = self.leave(
            rf,
            this_verdict,
            remove_session,
            session_id,
            verdicts,
            Ghost(arrival),
            Ghost(reading),
            Ghost(own),
        );
        proof {
            crate::handler::lemma_data_trace_join(
                before.app_data_handler,
                crate::tcp_step::own_calls(own),
                settled_handler,
                kept,
                self.app_data_handler,
            );
            crate::handler::lemma_transport_trace_join(
                before.transport_spy,
                reading.events,
                settled_spy,
                crate::tcp_step::leaving_events(reading, own, kept),
                self.transport_spy,
            );
            assert(Self::handled_as(&before, arrival, fresh, own, kept, self, verdicts@));
        }
        verdicts
    }
}

/// A call of the handler is a step of a run: with the same packet, the same state before and after,
/// and the same verdicts.
pub proof fn law_call_is_a_step<
    NetAddr: NetworkAddr,
    TSpy: TransportSnarfSpy,
    AH: ApplicationDataSnarfHandler,
    RF: TransportPacketParent,
>(
    pre: SnarfTcp<AH, TSpy, NetAddr, RF>,
    src_ip: NetAddr,
    dst_ip: NetAddr,
    rf: RF,
    post: SnarfTcp<AH, TSpy, NetAddr, RF>,
    verdicts: Seq<SnarfInterceptVerdict<RF>>,
) -> (step: Step<NetAddr>)
    requires
        pre.takes_packet(src_ip, dst_ip, rf),
        SnarfTcp::<AH, TSpy, NetAddr, RF>::packet_handled(
            &pre,
            src_ip,
            dst_ip,
            rf,
            &post,
            verdicts,
        ),
    ensures
        step.arrival == SnarfTcp::<AH, TSpy, NetAddr, RF>::arrival(src_ip, dst_ip, rf),
        step.arrival.src_net == src_ip,
        step.arrival.dst_net == dst_ip,
        step.arrival.packet.ident == rf.ident(),
        step.arrival.packet.net_header == rf.net_header(),
        step.arrival.packet.segment == rf.segment(),
        crate::tcp_laws::valid_state(pre.state()),
        step.fits(pre.state()),
        post.wf(),
        all_splittable(verdicts),
        step.outcome(pre.state()).state == post.state(),
        step.outcome(pre.state()).verdicts == crate::packet::verdict_views(verdicts),
        crate::handler::transport_trace(
            pre.transport_spy,
            step.outcome(pre.state()).events,
            post.transport_spy,
        ),
        crate::handler::data_trace(
            pre.app_data_handler,
            crate::tcp_step::own_calls(step.own) + step.kept,
            post.app_data_handler,
        ),
        crate::tcp_step::own_calls(step.own) == match step.own {
            Some(call) => seq![call],
            None => seq![],
        },
{
    pre.lemma_valid();
    let arrival = SnarfTcp::<AH, TSpy, NetAddr, RF>::arrival(src_ip, dst_ip, rf);
    let (fresh, own, kept) = choose|
        fresh: SessionView<NetAddr>,
        own: Option<DataCall>,
        kept: Seq<DataCall>,
    | #[trigger]
        SnarfTcp::<AH, TSpy, NetAddr, RF>::handled_as(
            &pre,
            arrival,
            fresh,
            own,
            kept,
            &post,
            verdicts,
        );
    Step { arrival, fresh, own, kept }
}

/// The handler takes every packet that can be split and has a TCP header of at least fourteen bytes
/// and up to 65536 bytes of data, while there are numbers left for connections.
pub proof fn law_packets_that_are_taken<
    NetAddr: NetworkAddr,
    TSpy: TransportSnarfSpy,
    AH: ApplicationDataSnarfHandler,
    RF: TransportPacketParent,
>(
    handler: SnarfTcp<AH, TSpy, NetAddr, RF>,
    src_ip: NetAddr,
    dst_ip: NetAddr,
    rf: RF,
    offset: int,
)
    requires
        handler.wf(),
        offset == rf.segment()[12] / 16 * 4,
    ensures
        rf.splittable() && 14 <= offset <= rf.segment().len() <= offset + 65536
            && handler.sessions.id_counter < 0xFFFF_FFFF_FFFF_FFFF ==> handler.takes_packet(
            src_ip,
            dst_ip,
            rf,
        ),
        handler.takes_packet(src_ip, dst_ip, rf) ==> rf.splittable() && 14 <= offset
            <= rf.segment().len() <= offset + 65536,
{
}

/// All packets that verdicts give back can be split.
pub proof fn law_packets_stay_splittable<RF: TransportPacketParent>(
    verdicts: Seq<SnarfInterceptVerdict<RF>>,
    i: int,
)
    requires
        all_splittable(verdicts),
        0 <= i < verdicts.len(),
    ensures
        match verdicts[i] {
            SnarfInterceptVerdict::Accept(rf) => rf.splittable(),
            SnarfInterceptVerdict::Drop(rf) => rf.splittable(),
            SnarfInterceptVerdict::Keep => true,
        },
{
}

} // verus!
