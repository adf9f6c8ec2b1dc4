//! TCP over IPv4 from a netfilter queue.
use vstd::prelude::*;

use crate::addr::Ipv4Type;
use crate::handler::{
    ApplicationDataSnarfHandler, DataCall, NetworkSnarfHandler, NetworkSnarfSpy,
    TransportSnarfHandler, TransportSnarfSpy,
};
use crate::nfq_ipv4::{NfqMessage, NfqMessageParent, SlicedNet, SnarfNfqIpv4};
use crate::packet::{SnarfInterceptVerdict, TransportPacketParent, VerdictView};
use crate::snarf_tcp::SnarfTcp;
use crate::tcp::SessionView;
use crate::tcp_laws::PacketShape;
use crate::tcp_step::{Arrival, TcpState};
use crate::tcp_util::tcp_header_len;

verus! {

/// Which queue to listen to.
#[derive(Clone, Copy, Debug)]
pub struct SnarfNfqNetOptions {
    pub queue_num: u16,
}

/// Which queue to listen to.
#[derive(Clone, Copy, Debug)]
pub struct SnarfNfqIpv4TcpOptions {
    pub queue_num: u16,
}

impl vstd::std_specs::convert::FromSpecImpl<&SnarfNfqIpv4TcpOptions> for SnarfNfqNetOptions {
    open spec fn obeys_from_spec() -> bool {
        true
    }

    open spec fn from_spec(obj: &SnarfNfqIpv4TcpOptions) -> Self {
        SnarfNfqNetOptions { queue_num: obj.queue_num }
    }
}

impl From<&SnarfNfqIpv4TcpOptions> for SnarfNfqNetOptions {
    fn from(obj: &SnarfNfqIpv4TcpOptions) -> Self {
        Self { queue_num: obj.queue_num }
    }
}

/// The handler of the TCP connections over IPv4.
pub type NfqTcp<AH, TSpy> = SnarfTcp<AH, TSpy, Ipv4Type, NfqMessageParent>;

/// Whether the checksum of the packet can be computed.
pub open spec fn is_sealable(shape: PacketShape) -> bool {
    &&& 20 <= shape.net_header.len()
    &&& 18 <= shape.segment_len <= u16::MAX
}

/// Whether the checksums of all packets that are held back can be computed.
pub open spec fn holds_sealable(state: TcpState<Ipv4Type>) -> bool {
    forall|key, i: int|
        #![trigger crate::tcp_laws::held(state.sessions[key])[i]]
        state.sessions.contains_key(key) && 0 <= i < crate::tcp_laws::held(
            state.sessions[key],
        ).len() ==> is_sealable(
            crate::tcp_laws::shape(crate::tcp_laws::held(state.sessions[key])[i]),
        )
}

/// If the checksums of the packets that are held back and of the one that arrives can be computed,
/// then so can those of the packets that are held back then and of those that leave.
proof fn lemma_stays_sealable(
    state: TcpState<Ipv4Type>,
    arrival: Arrival<Ipv4Type>,
    fresh: SessionView<Ipv4Type>,
    own: Option<DataCall>,
    kept: Seq<DataCall>,
)
    requires
        crate::tcp_laws::valid_state(state),
        crate::tcp_laws::valid_packet(arrival.packet),
        fresh.is_fresh(),
        crate::tcp_step::calls_fit(crate::tcp_step::reading(state, arrival, fresh), own, kept),
        holds_sealable(state),
        is_sealable(crate::tcp_laws::shape(arrival.packet)),
    ensures
        ({
            let reading = crate::tcp_step::reading(state, arrival, fresh);
            let outcome = crate::tcp_step::outcome(arrival, reading, own, kept);
            let returned = crate::tcp_laws::returned(outcome.verdicts);
            &&& holds_sealable(outcome.state)
            &&& forall|i: int|
                0 <= i < returned.len() ==> is_sealable(
                    crate::tcp_laws::shape(#[trigger] returned[i]),
                )
        }),
{
    let reading = crate::tcp_step::reading(state, arrival, fresh);
    let outcome = crate::tcp_step::outcome(arrival, reading, own, kept);
    let returned = crate::tcp_laws::returned(outcome.verdicts);
    crate::tcp_laws::law_no_packet_is_lost(state, arrival, fresh, own, kept);
    let key = arrival.key();
    let held_before = crate::tcp_laws::held_for(state, arrival);
    let held_after = crate::tcp_laws::held_for(outcome.state, arrival);
    let before = held_before + seq![arrival.packet];
    let after = held_after + returned;
    assert forall|j: int| 0 <= j < before.len() implies is_sealable(
        crate::tcp_laws::shape(#[trigger] before[j]),
    ) by {
        if j < held_before.len() {
            assert(before[j] == crate::tcp_laws::held(state.sessions[key])[j]);
        }
    }
    assert forall|i: int| 0 <= i < after.len() implies is_sealable(
        crate::tcp_laws::shape(#[trigger] after[i]),
    ) by {
        let j = crate::tcp_laws::lemma_same_packets(before, after, i);
        assert(is_sealable(crate::tcp_laws::shape(before[j])));
    }
    assert forall|i: int| 0 <= i < returned.len() implies is_sealable(
        crate::tcp_laws::shape(#[trigger] returned[i]),
    ) by {
        assert(after[held_after.len() + i] == returned[i]);
    }
    assert forall|k, i: int|
        #![trigger crate::tcp_laws::held(outcome.state.sessions[k])[i]]
        outcome.state.sessions.contains_key(k) && 0 <= i < crate::tcp_laws::held(
            outcome.state.sessions[k],
        ).len() implies is_sealable(
        crate::tcp_laws::shape(crate::tcp_laws::held(outcome.state.sessions[k])[i]),
    ) by {
        if k == key {
            assert(after[i] == crate::tcp_laws::held(outcome.state.sessions[k])[i]);
        } else {
            assert(outcome.state.sessions.remove(key).contains_key(k));
            assert(outcome.state.sessions.remove(key)[k] == outcome.state.sessions[k]);
            assert(state.sessions.remove(key)[k] == state.sessions[k]);
            assert(state.sessions[k] == outcome.state.sessions[k]);
            let _ = crate::tcp_laws::held(state.sessions[k])[i];
        }
    }
}

/// The verdicts of the TCP handler are ones that can be handed on.
proof fn lemma_handled_sealable<AH: ApplicationDataSnarfHandler, TSpy: TransportSnarfSpy>(
    pre: NfqTcp<AH, TSpy>,
    source: Ipv4Type,
    destination: Ipv4Type,
    parent: NfqMessageParent,
    post: NfqTcp<AH, TSpy>,
    verdicts: Seq<SnarfInterceptVerdict<NfqMessageParent>>,
)
    requires
        pre.wf(),
        holds_sealable(pre.state()),
        crate::snarf_tcp::is_followable(parent),
        is_sealable(crate::tcp_laws::shape(crate::packet::packet_view(parent))),
        NfqTcp::<AH, TSpy>::packet_handled(&pre, source, destination, parent, &post, verdicts),
    ensures
        post.wf(),
        holds_sealable(post.state()),
        crate::nfq_ipv4::all_sealable(verdicts),
{
    let arrival = NfqTcp::<AH, TSpy>::arrival(source, destination, parent);
    let (fresh, own, kept) = choose|
        fresh: SessionView<Ipv4Type>,
        own: Option<DataCall>,
        kept: Seq<DataCall>,
    | #[trigger]
        NfqTcp::<AH, TSpy>::handled_as(&pre, arrival, fresh, own, kept, &post, verdicts);
    pre.lemma_valid();
    lemma_stays_sealable(pre.state(), arrival, fresh, own, kept);
    let views = crate::packet::verdict_views(verdicts);
    assert forall|i: int| 0 <= i < verdicts.len() implies match #[trigger] verdicts[i] {
        SnarfInterceptVerdict::Accept(parent) => parent.splittable()
            && crate::tcp_util::checksum_fits(parent.net_header(), parent.segment()),
        SnarfInterceptVerdict::Drop(parent) => parent.splittable(),
        SnarfInterceptVerdict::Keep => true,
    } by {
        match verdicts[i] {
            SnarfInterceptVerdict::Accept(parent) => {
                let packet = crate::packet::packet_view(parent);
                assert(views[i] == VerdictView::Accept(packet));
                let j = crate::tcp_laws::lemma_returned(views, i, packet);
                crate::tcp_util::law_checksum_fits_every_packet(
                    parent.net_header(),
                    parent.segment(),
                );
            },
            _ => {},
        }
    }
}

impl<
    AH: ApplicationDataSnarfHandler,
    TSpy: TransportSnarfSpy,
    NetSpy: NetworkSnarfSpy,
> SnarfNfqIpv4<NfqTcp<AH, TSpy>, NetSpy> {
    /// What every packet leaves true.
    pub open spec fn wf(&self) -> bool {
        self.transport_handler.wf() && holds_sealable(self.transport_handler.state())
    }

    /// Whether the packet can be handled: it cannot be parsed, or it is an IPv4 packet with a TCP
    /// segment, no longer than such a packet can be, while there are numbers left for connections.
    /// A header that ends before its own length field, as fragments and packets of other protocols
    /// may seem to have, is none: the length would be data, which the data handler may change.
    pub open spec fn can_handle(&self, rf: NfqMessage, sliced: SlicedNet) -> bool {
        match sliced {
            SlicedNet::Malformed => true,
            SlicedNet::Ipv4 { ihl, .. } => {
                let segment = rf.payload@.skip(ihl * 4);
                &&& ihl * 4 + 18 <= rf.payload@.len() <= u16::MAX
                &&& crate::tcp_tracker::is_segment(segment)
                &&& self.transport_handler.sessions.id_counter < u64::MAX
            },
            _ => false,
        }
    }

    /// Handles a packet, or gives it back as it is, if it cannot be handled.
    pub fn handle(&mut self, rf: NfqMessage) -> (r: Result<
        Vec<SnarfInterceptVerdict<NfqMessage>>,
        NfqMessage,
    >)
        requires
            old(self).wf(),
        ensures
            final(self).wf(),
            r is Ok <==> old(self).can_handle(rf, crate::nfq_ipv4::sliced_ip(rf.payload@)),
            r matches Ok(verdicts) ==> Self::payload_handled(old(self), rf, final(self), verdicts@),
            r matches Err(given_back) ==> given_back == rf && *final(self) == *old(self),
            crate::nfq_ipv4::is_unfragmented_tcp(rf.payload@) && rf.payload@.len() <= u16::MAX
                && old(self).transport_handler.sessions.id_counter < u64::MAX ==> r is Ok,
            crate::nfq_ipv4::is_unfragmented_tcp(rf.payload@) && !crate::nfq_ipv4::holds_tcp_header(
                rf.payload@,
            ) ==> {
                &&& r matches Ok(verdicts)
                &&& verdicts@ == seq![SnarfInterceptVerdict::Accept(rf)]
                &&& *final(self) == *old(self)
            },
    {
        let sliced = crate::nfq_ipv4::slice_ip(rf.payload.as_slice());
        if !self.handles(&rf, sliced) {
            return Err(rf);
        }
        let ghost before = *self;
        proof {
            if let SlicedNet::Ipv4 { source, destination, ihl } = sliced {
                let parent = Self::parent(rf, ihl);
                assert forall|
                    post: NfqTcp<AH, TSpy>,
                    verdicts: Seq<SnarfInterceptVerdict<NfqMessageParent>>,
                | #[trigger]
                    NfqTcp::<AH, TSpy>::packet_handled(
                        &before.transport_handler,
                        source,
                        destination,
                        parent,
                        &post,
                        verdicts,
                    ) implies crate::nfq_ipv4::all_sealable(verdicts) by {
                    lemma_handled_sealable(
                        before.transport_handler,
                        source,
                        destination,
                        parent,
                        post,
                        verdicts,
                    );
                }
            }
        }
        let verdicts = self.on_payload(rf);
        proof {
            if let SlicedNet::Ipv4 { source, destination, ihl } = sliced {
                let parent = Self::parent(rf, ihl);
                let downs = choose|downs: Seq<SnarfInterceptVerdict<NfqMessageParent>>|
                    #[trigger]
                    Self::ipv4_handled(
                        &before,
                        source,
                        destination,
                        parent,
                        downs,
                        self,
                        verdicts@,
                    );
                lemma_handled_sealable(
                    before.transport_handler,
                    source,
                    destination,
                    parent,
                    self.transport_handler,
                    downs,
                );
            }
        }
        Ok(verdicts)
    }

    /// Whether a packet at whose start `sliced` was found can be handled.
    fn handles(&self, rf: &NfqMessage, sliced: SlicedNet) -> (r: bool)
        ensures
            r == self.can_handle(*rf, sliced),
    {
        match sliced {
            SlicedNet::Malformed => true,
            SlicedNet::Ipv4 { source: _, destination: _, ihl } => {
                let ip_header_len: usize = ihl as usize * 4;
                let len: usize = rf.payload.len();
                if len > 0xFFFF || len < ip_header_len + 18 {
                    return false;
                }
                let (_header, segment) = rf.payload.as_slice().split_at(ip_header_len);
                let header_len: usize = tcp_header_len(segment);
                14 <= header_len && header_len <= segment.len()
                    && self.transport_handler.sessions.id_counter < u64::MAX
            },
            _ => false,
        }
    }
}

/// A packet that cannot be parsed can be handled. One with an IPv4 header can, exactly if it is no
/// longer than such a packet can be, has the eighteen bytes of the TCP header that are read, and
/// that header gives itself a length of at least fourteen bytes that are there, while there are
/// numbers left for connections.
pub proof fn law_what_can_be_handled<
    AH: ApplicationDataSnarfHandler,
    TSpy: TransportSnarfSpy,
    NetSpy: NetworkSnarfSpy,
>(handler: SnarfNfqIpv4<NfqTcp<AH, TSpy>, NetSpy>, rf: NfqMessage, sliced: SlicedNet)
    ensures
        handler.can_handle(rf, sliced) <==> match sliced {
            SlicedNet::Malformed => true,
            SlicedNet::Ipv4 { ihl, .. } => {
                let offset = 4 * ihl;
                let len = rf.payload@.len();
                &&& offset + 18 <= len <= 65535
                &&& 14 <= rf.payload@[offset + 12] / 16 * 4 <= len - offset
                &&& handler.transport_handler.sessions.id_counter < 0xFFFF_FFFF_FFFF_FFFF
            },
            _ => false,
        },
{
}

/// The queue that is listened to for TCP over IPv4 is the queue that was asked for.
pub proof fn law_same_queue(options: SnarfNfqIpv4TcpOptions)
    ensures
        <SnarfNfqNetOptions as vstd::std_specs::convert::FromSpec<
            &SnarfNfqIpv4TcpOptions,
        >>::from_spec(&options).queue_num == options.queue_num,
{
}

} // verus!
