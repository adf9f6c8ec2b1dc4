//! IPv4 packets from a netfilter queue.
use etherparse::{NetSlice, SlicedPacket};
use vstd::prelude::*;

use crate::addr::Ipv4Type;
use crate::handler::{NetworkEvent, NetworkSnarfHandler, NetworkSnarfSpy, TransportSnarfHandler};
use crate::ipv4_util::TCP_PROTOCOL;
use crate::packet::{InterceptVerdict, SnarfInterceptVerdict, TransportPacketParent};
use crate::tcp_util::update_checksum_tcp_ipv4;

verus! {

/// A packet that the queue has handed out: the number under which the queue knows it, its bytes
/// from the network header on, and how many of them there were before the queue cut them off.
#[derive(Clone, Debug)]
pub struct NfqMessage {
    pub packet_id: u32,
    pub payload: Vec<u8>,
    pub original_len: usize,
}

/// A packet of the queue as it is seen from outside.
#[verifier::ext_equal]
pub struct MessageView {
    pub packet_id: u32,
    pub payload: Seq<u8>,
    pub original_len: usize,
}

impl NfqMessage {
    pub open spec fn view(&self) -> MessageView {
        MessageView {
            packet_id: self.packet_id,
            payload: self.payload@,
            original_len: self.original_len,
        }
    }

    /// Whether bytes of the packet are missing.
    pub fn is_truncated(&self) -> (r: bool)
        ensures
            r == (self.payload@.len() != self.original_len),
    {
        self.payload.len() != self.original_len
    }
}

/// A packet of the queue whose network header has been measured.
#[derive(Debug)]
pub struct NfqMessageParent {
    pub message: NfqMessage,
    pub ip_header_len: usize,
}

impl TransportPacketParent for NfqMessageParent {
    /// The number of the packet and the length that it had, in one.
    open spec fn ident(&self) -> int {
        self.message.original_len * 0x1_0000_0000 + self.message.packet_id
    }

    open spec fn net_header(&self) -> Seq<u8> {
        self.message.payload@.take(self.ip_header_len as int)
    }

    open spec fn segment(&self) -> Seq<u8> {
        self.message.payload@.skip(self.ip_header_len as int)
    }

    open spec fn splittable(&self) -> bool {
        self.ip_header_len <= self.message.payload@.len()
    }

    fn split(&mut self) -> (r: (&[u8], &mut [u8]))
        ensures
            final(self).message@ == (MessageView {
                payload: old(self).net_header() + final(r.1)@,
                ..old(self).message@
            }),
            final(self).ip_header_len == old(self).ip_header_len,
    {
        let ghost after = *final(self);
        let ghost header = self.net_header();
        let payload = self.message.payload.as_mut_slice();
        let (net_header, tcp_payload) = payload.split_at_mut(self.ip_header_len);
        proof {
            assert(after.message.payload@ =~= header + final(tcp_payload)@);
            assert(after.net_header() =~= header);
            assert(after.segment() =~= final(tcp_payload)@);
        }
        (net_header, tcp_payload)
    }
}

/// What is found at the start of a packet.
#[derive(Clone, Copy, Debug, PartialEq, Eq)]
pub enum SlicedNet {
    /// The packet cannot be parsed.
    Malformed,
    /// An IPv4 header of `ihl` times four bytes.
    Ipv4 { source: Ipv4Type, destination: Ipv4Type, ihl: u8 },
    /// An IPv6 header.
    Ipv6,
    /// No network header.
    Other,
}

/// Whether the packet is one of TCP over IPv4, and not a fragment.
pub open spec fn is_unfragmented_tcp(payload: Seq<u8>) -> bool {
    &&& 20 <= payload.len()
    &&& payload[0] / 16 == 4
    &&& payload[6] % 64 == 0
    &&& payload[7] == 0
    &&& payload[9] == TCP_PROTOCOL
}

/// Whether such a packet has an IPv4 header that is not too short, is as long as that header says,
/// or longer, and has room for the TCP header behind it.
pub open spec fn holds_tcp_header(payload: Seq<u8>) -> bool {
    let header_len = crate::ipv4_util::ipv4_header_len_spec(payload);
    let total_len = crate::ipv4_util::be16(payload[2], payload[3]);
    &&& 20 <= header_len
    &&& header_len + 20 <= total_len <= payload.len()
    &&& 20 <= crate::tcp_util::header_len_of(payload.skip(header_len)) <= total_len - header_len
}

/// What `etherparse::SlicedPacket::from_ip` finds at the start of these bytes.
pub uninterp spec fn sliced_ip(payload: Seq<u8>) -> SlicedNet;

/// Calls `etherparse::SlicedPacket::from_ip`, and reads the addresses and the length field off an
/// IPv4 header that it finds. The result depends on the bytes alone. Claimed of it besides: an IPv4
/// header is only found where the first byte names version four and a length of at least twenty
/// bytes that are there, and its addresses stand at their places in it; an IPv6 header is only found
/// where the first byte names version six and forty bytes are there; a packet that can be parsed has
/// one of the two; and an unfragmented packet of TCP over IPv4 can be parsed if its headers are not
/// too short and fit into it. Which other packets can be parsed is not said: that takes extension
/// headers and the headers of other protocols into account.
#[verifier::external_body]
pub(crate) fn slice_ip(payload: &[u8]) -> (r: SlicedNet)
    ensures
        r == sliced_ip(payload@),
        r matches SlicedNet::Ipv4 { source, destination, ihl } ==> {
            &&& payload@.len() >= 20
            &&& payload@[0] / 16 == 4
            &&& ihl == payload@[0] % 16
            &&& 5 <= ihl
            &&& ihl * 4 <= payload@.len()
            &&& source@ == payload@.subrange(12, 16)
            &&& destination@ == payload@.subrange(16, 20)
        },
        r is Ipv6 ==> payload@.len() >= 40 && payload@[0] / 16 == 6,
        !(r is Other),
        is_unfragmented_tcp(payload@) ==> (r is Ipv4 <==> holds_tcp_header(payload@)),
{
    match SlicedPacket::from_ip(payload) {
        Err(_) => SlicedNet::Malformed,
        Ok(parsed) => match parsed.net {
            Some(NetSlice::Ipv4(ip)) => SlicedNet::Ipv4 {
                source: ip.header().source(),
                destination: ip.header().destination(),
                ihl: ip.header().ihl(),
            },
            Some(NetSlice::Ipv6(_)) => SlicedNet::Ipv6,
            None => SlicedNet::Other,
        },
    }
}

/// The segment of an accepted packet, with its checksum.
pub open spec fn sealed_segment(parent: NfqMessageParent) -> Seq<u8> {
    crate::tcp_util::with_checksum(
        parent.segment(),
        crate::tcp_util::tcp_checksum_of(parent.net_header(), parent.segment()),
    )
}

/// An accepted packet, with its checksum.
pub open spec fn sealed(parent: NfqMessageParent) -> MessageView {
    MessageView {
        payload: parent.net_header() + sealed_segment(parent),
        ..parent.message@
    }
}

/// Whether the checksums of all accepted packets can be computed.
pub open spec fn all_sealable(verdicts: Seq<SnarfInterceptVerdict<NfqMessageParent>>) -> bool {
    forall|i: int|
        0 <= i < verdicts.len() ==> match #[trigger] verdicts[i] {
            SnarfInterceptVerdict::Accept(parent) => parent.splittable()
                && crate::tcp_util::checksum_fits(parent.net_header(), parent.segment()),
            SnarfInterceptVerdict::Drop(parent) => parent.splittable(),
            SnarfInterceptVerdict::Keep => true,
        }
}

/// Whether `up` is what is handed on of the verdict `down`: an accepted packet gets its checksum, a
/// dropped one stays as it is.
pub open spec fn is_upstream_of(
    up: SnarfInterceptVerdict<NfqMessage>,
    down: SnarfInterceptVerdict<NfqMessageParent>,
) -> bool {
    match (up, down) {
        (SnarfInterceptVerdict::Accept(message), SnarfInterceptVerdict::Accept(parent)) => message@
            == sealed(parent),
        (SnarfInterceptVerdict::Drop(message), SnarfInterceptVerdict::Drop(parent)) => message@
            == parent.message@,
        (SnarfInterceptVerdict::Keep, SnarfInterceptVerdict::Keep) => true,
        _ => false,
    }
}

pub open spec fn are_upstream_of(
    ups: Seq<SnarfInterceptVerdict<NfqMessage>>,
    downs: Seq<SnarfInterceptVerdict<NfqMessageParent>>,
) -> bool {
    &&& ups.len() == downs.len()
    &&& forall|i: int| 0 <= i < ups.len() ==> is_upstream_of(#[trigger] ups[i], downs[i])
}

/// What the spy is shown of a packet that leaves.
pub open spec fn leaving_events(down: SnarfInterceptVerdict<NfqMessageParent>) -> Seq<
    NetworkEvent,
> {
    match down {
        SnarfInterceptVerdict::Accept(parent) => seq![
            NetworkEvent::After {
                net_header: parent.net_header(),
                data: sealed_segment(parent),
                verdict: InterceptVerdict::Accept,
            },
        ],
        SnarfInterceptVerdict::Drop(parent) => seq![
            NetworkEvent::After {
                net_header: parent.net_header(),
                data: parent.segment(),
                verdict: InterceptVerdict::Drop,
            },
        ],
        SnarfInterceptVerdict::Keep => seq![],
    }
}

/// What the spy is shown of a packet that arrives, and of those that leave then.
pub open spec fn shown_events(
    parent: NfqMessageParent,
    downs: Seq<SnarfInterceptVerdict<NfqMessageParent>>,
) -> Seq<NetworkEvent>
    decreases downs.len(),
{
    if downs.len() == 0 {
        seq![NetworkEvent::Before { net_header: parent.net_header(), data: parent.segment() }]
    } else {
        shown_events(parent, downs.drop_last()) + leaving_events(downs.last())
    }
}

/// Handles the IPv4 packets of a queue: hands what they carry to a handler of the transport layer,
/// and puts the checksums in order again.
pub struct SnarfNfqIpv4<
    TH: TransportSnarfHandler<Ipv4Type, NfqMessageParent>,
    NetSpy: NetworkSnarfSpy,
> {
    pub transport_handler: TH,
    pub net_spy: NetSpy,
}

impl<
    TH: TransportSnarfHandler<Ipv4Type, NfqMessageParent> + Default,
    NetSpy: NetworkSnarfSpy + Default,
> Default for SnarfNfqIpv4<TH, NetSpy> {
    fn default() -> (r: Self)
        ensures
            call_ensures(TH::default, (), r.transport_handler),
            call_ensures(NetSpy::default, (), r.net_spy),
    {
        Self { transport_handler: TH::default(), net_spy: NetSpy::default() }
    }
}

impl<
    TH: TransportSnarfHandler<Ipv4Type, NfqMessageParent>,
    NetSpy: NetworkSnarfSpy,
> SnarfNfqIpv4<TH, NetSpy> {
    pub fn new(transport_handler: TH, net_spy: NetSpy) -> (r: Self)
        ensures
            r.transport_handler == transport_handler,
            r.net_spy == net_spy,
    {
        Self { transport_handler, net_spy }
    }

    /// The packet with its network header measured.
    pub open spec fn parent(rf: NfqMessage, ihl: u8) -> NfqMessageParent {
        NfqMessageParent { message: rf, ip_header_len: (ihl * 4) as usize }
    }

    /// Whether a packet at whose start `sliced` was found can be taken. One that cannot be parsed
    /// can. One with an IPv4 header can, if the handler of the transport layer takes it, and if the
    /// checksums of all that it then accepts can be computed. Others cannot.
    pub open spec fn takes_sliced(&self, rf: NfqMessage, sliced: SlicedNet) -> bool {
        match sliced {
            SlicedNet::Malformed => true,
            SlicedNet::Ipv4 { source, destination, ihl } => {
                let parent = Self::parent(rf, ihl);
                &&& ihl <= 15
                &&& parent.splittable()
                &&& self.transport_handler.takes_packet(source, destination, parent)
                &&& forall|
                    post: TH,
                    verdicts: Seq<SnarfInterceptVerdict<NfqMessageParent>>,
                | #[trigger]
                    TH::packet_handled(
                        &self.transport_handler,
                        source,
                        destination,
                        parent,
                        &post,
                        verdicts,
                    ) ==> all_sealable(verdicts)
            },
            _ => false,
        }
    }

    /// Whether handling a packet with an IPv4 header can turn the handler `pre` into `post` and give
    /// these verdicts, where the handler of the transport layer gave the verdicts `downs`.
    pub open spec fn ipv4_handled(
        pre: &Self,
        source: Ipv4Type,
        destination: Ipv4Type,
        parent: NfqMessageParent,
        downs: Seq<SnarfInterceptVerdict<NfqMessageParent>>,
        post: &Self,
        verdicts: Seq<SnarfInterceptVerdict<NfqMessage>>,
    ) -> bool {
        &&& TH::packet_handled(
            &pre.transport_handler,
            source,
            destination,
            parent,
            &post.transport_handler,
            downs,
        )
        &&& are_upstream_of(verdicts, downs)
        &&& crate::handler::network_trace(pre.net_spy, shown_events(parent, downs), post.net_spy)
    }

    /// Whether handling a packet at whose start `sliced` was found can turn the handler `pre` into
    /// `post` and give these verdicts. A packet that cannot be parsed is accepted as it is.
    pub open spec fn sliced_handled(
        pre: &Self,
        rf: NfqMessage,
        sliced: SlicedNet,
        post: &Self,
        verdicts: Seq<SnarfInterceptVerdict<NfqMessage>>,
    ) -> bool {
        match sliced {
            SlicedNet::Malformed => post == pre && verdicts == seq![
                SnarfInterceptVerdict::Accept(rf),
            ],
            SlicedNet::Ipv4 { source, destination, ihl } => exists|
                downs: Seq<SnarfInterceptVerdict<NfqMessageParent>>,
            | #[trigger]
                Self::ipv4_handled(
                    pre,
                    source,
                    destination,
                    Self::parent(rf, ihl),
                    downs,
                    post,
                    verdicts,
                ),
            _ => false,
        }
    }

    /// Handles a packet at whose start `sliced` was found.
    pub fn on_sliced_payload(&mut self, rf: NfqMessage, sliced: SlicedNet) -> (verdicts: Vec<
        SnarfInterceptVerdict<NfqMessage>,
    >)
        requires
            old(self).takes_sliced(rf, sliced),
        ensures
            Self::sliced_handled(old(self), rf, sliced, final(self), verdicts@),
    {
        let ghost before = *self;
        let (src_ip, dst_ip, ihl) = match sliced {
            SlicedNet::Ipv4 { source, destination, ihl } => (source, destination, ihl),
            _ => {
                let mut accepted: Vec<SnarfInterceptVerdict<NfqMessage>> = Vec::new();
                accepted.push(SnarfInterceptVerdict::Accept(rf));
                assert(accepted@ =~= seq![SnarfInterceptVerdict::Accept(rf)]);
                return accepted;
            },
        };
        let ip_header_len: usize = (ihl * 4) as usize;
        let (ip_header, tcp_payload) = rf.payload.as_slice().split_at(ip_header_len);
        self.net_spy.before(ip_header, tcp_payload);
        let msg_parent = NfqMessageParent { message: rf, ip_header_len };
        let ghost parent = msg_parent;
        assert(parent == Self::parent(rf, ihl));
        let ghost shown = self.net_spy;
        proof {
            let none: Seq<NetworkEvent> = seq![];
            let event = NetworkEvent::Before {
                net_header: parent.net_header(),
                data: parent.segment(),
            };
            crate::handler::lemma_network_trace_push(
                before.net_spy,
                none,
                before.net_spy,
                event,
                shown,
            );
            assert(none.push(event) =~= shown_events(parent, seq![]));
        }
        let mut verdicts = self.transport_handler.on_transport_packet(src_ip, dst_ip, msg_parent);
        let ghost downs = verdicts@;
        let ghost after_handler = self.transport_handler;
        let mut upstream_verdicts: Vec<SnarfInterceptVerdict<NfqMessage>> = Vec::new();
        assert(downs.take(0) =~= seq![]);
        while verdicts.len() > 0
            invariant
                verdicts@.len() + upstream_verdicts@.len() == downs.len(),
                verdicts@ == downs.skip(upstream_verdicts@.len() as int),
                all_sealable(downs),
                are_upstream_of(
                    upstream_verdicts@,
                    downs.take(upstream_verdicts@.len() as int),
                ),
                crate::handler::network_trace(
                    before.net_spy,
                    shown_events(parent, downs.take(upstream_verdicts@.len() as int)),
                    self.net_spy,
                ),
                self.transport_handler == after_handler,
            decreases verdicts@.len(),
        {
            let ghost n = upstream_verdicts@.len() as int;
            let ghost middle_spy = self.net_spy;
            let verdict = verdicts.remove(0);
            assert(verdict == downs[n]);
            let up_verdict = match verdict {
                SnarfInterceptVerdict::Accept(mut rf) => {
                    let (ip_header, tcp_payload) = rf.split();
                    update_checksum_tcp_ipv4(ip_header, tcp_payload);
                    self.net_spy.after(ip_header, tcp_payload, &InterceptVerdict::Accept);
                    SnarfInterceptVerdict::Accept(rf.message)
                },
                SnarfInterceptVerdict::Drop(mut rf) => {
                    let ghost message = rf.message@;
                    let (ip_header, tcp_payload) = rf.split();
                    self.net_spy.after(ip_header, tcp_payload, &InterceptVerdict::Drop);
                    assert(rf.message@.payload =~= message.payload);
                    SnarfInterceptVerdict::Drop(rf.message)
                },
                SnarfInterceptVerdict::Keep => SnarfInterceptVerdict::Keep,
            };
            upstream_verdicts.push(up_verdict);
            proof {
                let events = shown_events(parent, downs.take(n));
                assert(downs.take(n + 1).drop_last() =~= downs.take(n));
                assert(downs.take(n + 1).last() == downs[n]);
                let leaving = leaving_events(downs[n]);
                if leaving.len() > 0 {
                    crate::handler::lemma_network_trace_push(
                        before.net_spy,
                        events,
                        middle_spy,
                        leaving[0],
                        self.net_spy,
                    );
                    assert(events.push(leaving[0]) =~= events + leaving);
                } else {
                    assert(events + leaving =~= events);
                }
            }
        }
        assert(downs.take(upstream_verdicts@.len() as int) =~= downs);
        proof {
            assert(Self::ipv4_handled(
                &before,
                src_ip,
                dst_ip,
                parent,
                downs,
                self,
                upstream_verdicts@,
            ));
        }
        upstream_verdicts
    }
}

impl<
    NetSpy: NetworkSnarfSpy,
    TH: TransportSnarfHandler<Ipv4Type, NfqMessageParent>,
> NetworkSnarfHandler<NfqMessage> for SnarfNfqIpv4<TH, NetSpy> {
    open spec fn takes_payload(&self, rf: NfqMessage) -> bool {
        self.takes_sliced(rf, sliced_ip(rf.payload@))
    }

    open spec fn payload_handled(
        pre: &Self,
        rf: NfqMessage,
        post: &Self,
        verdicts: Seq<SnarfInterceptVerdict<NfqMessage>>,
    ) -> bool {
        Self::sliced_handled(pre, rf, sliced_ip(rf.payload@), post, verdicts)
    }

    fn on_payload(&mut self, rf: NfqMessage) -> (verdicts: Vec<SnarfInterceptVerdict<NfqMessage>>) {
        let sliced = slice_ip(rf.payload.as_slice());
        self.on_sliced_payload(rf, sliced)
    }
}

/// Whether a receiver of the packet finds no fault with its TCP checksum: what it adds up, byte by
/// byte, over the segment behind an IPv4 header of `offset` bytes, over the addresses in that
/// header, the number of the protocol and the length, leaves no remainder by 65535.
pub open spec fn checksum_comes_out(payload: Seq<u8>, offset: int) -> bool {
    let segment = payload.skip(offset);
    (crate::ipv4_util::byte_sum(segment, segment.len() as int, -2) + 256 * payload[12]
        + payload[13] + 256 * payload[14] + payload[15] + 256 * payload[16] + payload[17] + 256
        * payload[18] + payload[19] + 6 + segment.len() % 0x1_0000_0000) % 65535 == 0
}

/// A packet that is accepted keeps its number, its lengths and its bytes, but for the two bytes of
/// the TCP checksum, and its checksum comes out.
pub proof fn law_accepted_packet_is_sealed(parent: NfqMessageParent, i: int)
    requires
        20 <= parent.ip_header_len,
        parent.ip_header_len + 18 <= parent.message.payload@.len(),
        0 <= i < parent.message.payload@.len(),
    ensures
        sealed(parent).packet_id == parent.message.packet_id,
        sealed(parent).original_len == parent.message.original_len,
        sealed(parent).payload.len() == parent.message.payload@.len(),
        i != parent.ip_header_len + 16 && i != parent.ip_header_len + 17 ==> sealed(
            parent,
        ).payload[i] == parent.message.payload@[i],
        checksum_comes_out(sealed(parent).payload, parent.ip_header_len as int),
        sealed(parent).payload[parent.ip_header_len + 16] < 255 || sealed(
            parent,
        ).payload[parent.ip_header_len + 17] < 255,
{
    let header = parent.net_header();
    let segment = parent.segment();
    crate::tcp_util::law_checksum_comes_out(header, segment);
    let out = sealed(parent).payload;
    let offset = parent.ip_header_len as int;
    assert(out.skip(offset) =~= sealed_segment(parent));
    assert(forall|j: int| 12 <= j < 20 ==> out[j] == header[j]);
}

/// Each verdict of the transport layer is handed on in its place, and as what it is: the packet
/// with its checksum in order where it is accepted, the packet as it is where it is dropped.
pub proof fn law_verdicts_are_handed_on(
    ups: Seq<SnarfInterceptVerdict<NfqMessage>>,
    downs: Seq<SnarfInterceptVerdict<NfqMessageParent>>,
    i: int,
)
    requires
        are_upstream_of(ups, downs),
        0 <= i < downs.len(),
    ensures
        ups.len() == downs.len(),
        match downs[i] {
            SnarfInterceptVerdict::Accept(parent) => {
                &&& ups[i] matches SnarfInterceptVerdict::Accept(message)
                &&& message.packet_id == parent.message.packet_id
                &&& message.original_len == parent.message.original_len
                &&& 20 <= parent.ip_header_len && parent.ip_header_len + 18
                    <= parent.message.payload@.len() ==> {
                    &&& message.payload@.len() == parent.message.payload@.len()
                    &&& checksum_comes_out(message.payload@, parent.ip_header_len as int)
                    &&& forall|j: int|
                        0 <= j < message.payload@.len() && j != parent.ip_header_len + 16 && j
                            != parent.ip_header_len + 17 ==> message.payload@[j]
                            == parent.message.payload@[j]
                }
            },
            SnarfInterceptVerdict::Drop(parent) => {
                &&& ups[i] matches SnarfInterceptVerdict::Drop(message)
                &&& message.packet_id == parent.message.packet_id
                &&& message.original_len == parent.message.original_len
                &&& message.payload@ == parent.message.payload@
            },
            SnarfInterceptVerdict::Keep => ups[i] is Keep,
        },
{
    assert(is_upstream_of(ups[i], downs[i]));
    if let SnarfInterceptVerdict::Accept(parent) = downs[i] {
        if 20 <= parent.ip_header_len && parent.ip_header_len + 18 <= parent.message.payload@.len() {
            law_accepted_packet_is_sealed(parent, 0);
            assert forall|j: int|
                0 <= j < parent.message.payload@.len() && j != parent.ip_header_len + 16 && j
                    != parent.ip_header_len + 17 implies sealed(parent).payload[j]
                == parent.message.payload@[j] by {
                law_accepted_packet_is_sealed(parent, j);
            }
        }
    }
}

/// The spy is shown the packet that arrives, header and rest apart; then each packet that leaves,
/// header and rest as they leave, and whether it is accepted or dropped; and nothing of one that is
/// held back.
pub proof fn law_network_spy_is_shown_all(
    parent: NfqMessageParent,
    downs: Seq<SnarfInterceptVerdict<NfqMessageParent>>,
    leaving: NfqMessageParent,
)
    requires
        leaving.ip_header_len <= leaving.message.payload@.len(),
    ensures
        ({
            let shown = shown_events(parent, downs);
            let header = leaving.message.payload@.take(leaving.ip_header_len as int);
            let accepted = shown_events(parent, downs.push(SnarfInterceptVerdict::Accept(leaving)));
            let dropped = shown_events(parent, downs.push(SnarfInterceptVerdict::Drop(leaving)));
            let kept = shown_events(parent, downs.push(SnarfInterceptVerdict::Keep));
            &&& shown_events(parent, seq![]) == seq![
                NetworkEvent::Before {
                    net_header: parent.message.payload@.take(parent.ip_header_len as int),
                    data: parent.message.payload@.skip(parent.ip_header_len as int),
                },
            ]
            &&& kept == shown
            &&& dropped == shown.push(
                NetworkEvent::After {
                    net_header: header,
                    data: leaving.message.payload@.skip(leaving.ip_header_len as int),
                    verdict: InterceptVerdict::Drop,
                },
            )
            &&& accepted == shown.push(
                NetworkEvent::After {
                    net_header: header,
                    data: sealed(leaving).payload.skip(leaving.ip_header_len as int),
                    verdict: InterceptVerdict::Accept,
                },
            )
        }),
{
    let shown = shown_events(parent, downs);
    let accept = downs.push(SnarfInterceptVerdict::Accept(leaving));
    let drop = downs.push(SnarfInterceptVerdict::Drop(leaving));
    let keep = downs.push(SnarfInterceptVerdict::<NfqMessageParent>::Keep);
    assert(accept.drop_last() =~= downs);
    assert(drop.drop_last() =~= downs);
    assert(keep.drop_last() =~= downs);
    assert(shown_events(parent, keep) =~= shown);
    assert(sealed(leaving).payload.skip(leaving.ip_header_len as int) =~= sealed_segment(leaving));
    assert(shown_events(parent, accept) =~= shown + leaving_events(accept.last()));
    assert(shown_events(parent, drop) =~= shown + leaving_events(drop.last()));
}

/// A packet that cannot be parsed is accepted as it is, and changes nothing. One with an IPv4 header
/// is handed to the transport layer, whole, with the addresses and with a header of four bytes for
/// each unit of its length field, and for every verdict that comes back one is handed on.
pub proof fn law_packet_is_handed_down<
    TH: TransportSnarfHandler<Ipv4Type, NfqMessageParent>,
    NetSpy: NetworkSnarfSpy,
>(
    pre: SnarfNfqIpv4<TH, NetSpy>,
    rf: NfqMessage,
    sliced: SlicedNet,
    post: SnarfNfqIpv4<TH, NetSpy>,
    verdicts: Seq<SnarfInterceptVerdict<NfqMessage>>,
    parent: NfqMessageParent,
)
    requires
        SnarfNfqIpv4::<TH, NetSpy>::sliced_handled(&pre, rf, sliced, &post, verdicts),
        pre.takes_sliced(rf, sliced),
        parent.message == rf,
        sliced matches SlicedNet::Ipv4 { ihl, .. } ==> parent.ip_header_len == 4 * ihl,
    ensures
        match sliced {
            SlicedNet::Malformed => {
                &&& post == pre
                &&& verdicts.len() == 1
                &&& verdicts[0] == SnarfInterceptVerdict::Accept(rf)
            },
            SlicedNet::Ipv4 { source, destination, .. } => exists|
                downs: Seq<SnarfInterceptVerdict<NfqMessageParent>>,
            |
                {
                    &&& #[trigger] TH::packet_handled(
                        &pre.transport_handler,
                        source,
                        destination,
                        parent,
                        &post.transport_handler,
                        downs,
                    )
                    &&& are_upstream_of(verdicts, downs)
                    &&& crate::handler::network_trace(
                        pre.net_spy,
                        shown_events(parent, downs),
                        post.net_spy,
                    )
                },
            _ => false,
        },
{
    if let SlicedNet::Ipv4 { source, destination, ihl } = sliced {
        let downs = choose|downs: Seq<SnarfInterceptVerdict<NfqMessageParent>>|
            #[trigger]
            SnarfNfqIpv4::<TH, NetSpy>::ipv4_handled(
                &pre,
                source,
                destination,
                SnarfNfqIpv4::<TH, NetSpy>::parent(rf, ihl),
                downs,
                &post,
                verdicts,
            );
        assert(parent == SnarfNfqIpv4::<TH, NetSpy>::parent(rf, ihl));
        assert(TH::packet_handled(
            &pre.transport_handler,
            source,
            destination,
            parent,
            &post.transport_handler,
            downs,
        ));
    }
}

/// Packets of the queue are told apart by the number that the queue knows them by, and by the length
/// that they had.
pub proof fn law_packets_are_told_apart(a: NfqMessageParent, b: NfqMessageParent)
    ensures
        a.ident() == b.ident() <==> a.message.packet_id == b.message.packet_id
            && a.message.original_len == b.message.original_len,
{
}

/// A packet of the queue is split behind its network header.
pub proof fn law_packet_is_split_behind_its_header(parent: NfqMessageParent)
    requires
        parent.ip_header_len <= parent.message.payload@.len(),
    ensures
        parent.splittable(),
        parent.net_header().len() == parent.ip_header_len,
        parent.net_header() + parent.segment() == parent.message.payload@,
{
    assert(parent.net_header() + parent.segment() =~= parent.message.payload@);
}

/// What an unfragmented packet of TCP over IPv4 is, and whether its headers fit, by its bytes.
pub proof fn law_unfragmented_tcp_by_its_bytes(payload: Seq<u8>)
    requires
        20 <= payload.len(),
    ensures
        is_unfragmented_tcp(payload) <==> payload[0] / 16 == 4 && payload[6] % 64 == 0
            && payload[7] == 0 && payload[9] == 6,
        ({
            let offset = payload[0] % 16 * 4;
            let total = payload[2] * 256 + payload[3];
            holds_tcp_header(payload) <==> 20 <= offset && offset + 20 <= total
                <= payload.len() && 20 <= payload[offset + 12] / 16 * 4 <= total - offset
        }),
{
}

/// What the bytes of a packet are found to be decides how it is handled. One that cannot be parsed
/// is always taken; one of IPv6, or without a network header, never is.
pub proof fn law_packet_is_handled_by_what_is_found<
    TH: TransportSnarfHandler<Ipv4Type, NfqMessageParent>,
    NetSpy: NetworkSnarfSpy,
>(
    pre: SnarfNfqIpv4<TH, NetSpy>,
    rf: NfqMessage,
    post: SnarfNfqIpv4<TH, NetSpy>,
    verdicts: Seq<SnarfInterceptVerdict<NfqMessage>>,
)
    ensures
        SnarfNfqIpv4::<TH, NetSpy>::payload_handled(&pre, rf, &post, verdicts) <==> SnarfNfqIpv4::<
            TH,
            NetSpy,
        >::sliced_handled(&pre, rf, sliced_ip(rf.payload@), &post, verdicts),
        pre.takes_payload(rf) <==> pre.takes_sliced(rf, sliced_ip(rf.payload@)),
        pre.takes_sliced(rf, SlicedNet::Malformed),
        !pre.takes_sliced(rf, SlicedNet::Ipv6),
        !pre.takes_sliced(rf, SlicedNet::Other),
{
}

} // verus!
