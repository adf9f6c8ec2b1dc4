//! Packets that travel through the handlers, and what is decided about them.
use vstd::prelude::*;

verus! {

/// What a handler decides about the packets that it was given. `Keep` stands for a packet that the
/// handler holds back for now.
pub enum SnarfInterceptVerdict<RF> {
    Accept(RF),
    Drop(RF),
    Keep,
}

/// What is decided about data.
#[derive(Clone, Copy, Debug, PartialEq, Eq, Structural)]
pub enum InterceptVerdict {
    Accept,
    Drop,
}

/// What there is to know of a packet: which one it is, and its bytes from the network header on.
pub struct PacketView {
    pub ident: int,
    pub net_header: Seq<u8>,
    pub segment: Seq<u8>,
}

/// A packet whose transport segment can be rewritten in place.
pub trait TransportPacketParent {
    /// Tells packets apart, whatever their bytes are.
    open spec fn ident(&self) -> int {
        0
    }

    /// The network header.
    open spec fn net_header(&self) -> Seq<u8> {
        seq![]
    }

    /// What the network header carries: the transport header and the data.
    open spec fn segment(&self) -> Seq<u8> {
        seq![]
    }

    /// Whether the packet is long enough for its network header. Not so for a packet of which
    /// nothing is said.
    open spec fn splittable(&self) -> bool {
        false
    }

    /// Splits into an immutable network header reference and a mutable transport payload (including
    /// data) reference
    fn split(&mut self) -> (r: (&[u8], &mut [u8]))
        requires
            old(self).splittable(),
        ensures
            r.0@ == old(self).net_header(),
            r.1@ == old(self).segment(),
            final(self).ident() == old(self).ident(),
            final(self).net_header() == old(self).net_header(),
            final(self).segment() == final(r.1)@,
            final(self).splittable(),
    ;
}

/// The packet behind a reference to it.
pub open spec fn packet_view<RF: TransportPacketParent>(rf: RF) -> PacketView {
    PacketView { ident: rf.ident(), net_header: rf.net_header(), segment: rf.segment() }
}

/// A verdict, with the packet that it is about.
pub enum VerdictView {
    Accept(PacketView),
    Drop(PacketView),
    Keep,
}

/// A verdict as it is seen from outside.
pub open spec fn verdict_view<RF: TransportPacketParent>(
    verdict: SnarfInterceptVerdict<RF>,
) -> VerdictView {
    match verdict {
        SnarfInterceptVerdict::Accept(rf) => VerdictView::Accept(packet_view(rf)),
        SnarfInterceptVerdict::Drop(rf) => VerdictView::Drop(packet_view(rf)),
        SnarfInterceptVerdict::Keep => VerdictView::Keep,
    }
}

/// Verdicts as they are seen from outside.
pub open spec fn verdict_views<RF: TransportPacketParent>(
    verdicts: Seq<SnarfInterceptVerdict<RF>>,
) -> Seq<VerdictView> {
    verdicts.map_values(|v: SnarfInterceptVerdict<RF>| verdict_view(v))
}

/// One more verdict comes last.
pub proof fn lemma_verdict_views_push<RF: TransportPacketParent>(
    verdicts: Seq<SnarfInterceptVerdict<RF>>,
    verdict: SnarfInterceptVerdict<RF>,
)
    ensures
        verdict_views(verdicts.push(verdict)) == verdict_views(verdicts).push(
            verdict_view(verdict),
        ),
{
    assert(verdict_views(verdicts.push(verdict)) =~= verdict_views(verdicts).push(
        verdict_view(verdict),
    ));
}

/// More verdicts come behind.
pub proof fn lemma_verdict_views_join<RF: TransportPacketParent>(
    first: Seq<SnarfInterceptVerdict<RF>>,
    second: Seq<SnarfInterceptVerdict<RF>>,
)
    ensures
        verdict_views(first + second) == verdict_views(first) + verdict_views(second),
{
    assert(verdict_views(first + second) =~= verdict_views(first) + verdict_views(second));
}

/// What is seen of verdicts: each in its place, an accepted packet as accepted and a dropped one as
/// dropped, with its identity and its bytes.
pub proof fn law_verdicts_are_seen_as_they_are<RF: TransportPacketParent>(
    verdicts: Seq<SnarfInterceptVerdict<RF>>,
    i: int,
)
    requires
        0 <= i < verdicts.len(),
    ensures
        verdict_views(verdicts).len() == verdicts.len(),
        match verdicts[i] {
            SnarfInterceptVerdict::Accept(rf) => {
                &&& verdict_views(verdicts)[i] matches VerdictView::Accept(packet)
                &&& packet.ident == rf.ident()
                &&& packet.net_header == rf.net_header()
                &&& packet.segment == rf.segment()
            },
            SnarfInterceptVerdict::Drop(rf) => {
                &&& verdict_views(verdicts)[i] matches VerdictView::Drop(packet)
                &&& packet.ident == rf.ident()
                &&& packet.net_header == rf.net_header()
                &&& packet.segment == rf.segment()
            },
            SnarfInterceptVerdict::Keep => verdict_views(verdicts)[i] is Keep,
        },
{
}

} // verus!
