//! The handlers that packets are passed to, layer by layer, and the spies that look on.
use vstd::prelude::*;

use crate::packet::{InterceptVerdict, SnarfInterceptVerdict};

verus! {

/// Handles what arrives from the network.
pub trait NetworkSnarfHandler<RF> {
    /// Whether the handler can take the packet: any, if it does not say otherwise.
    open spec fn takes_payload(&self, rf: RF) -> bool {
        true
    }

    /// Whether handling the packet can turn the handler `pre` into `post` and give these verdicts:
    /// anything can, if the handler does not say otherwise.
    open spec fn payload_handled(
        pre: &Self,
        rf: RF,
        post: &Self,
        verdicts: Seq<SnarfInterceptVerdict<RF>>,
    ) -> bool {
        true
    }

    fn on_payload(&mut self, rf: RF) -> (verdicts: Vec<SnarfInterceptVerdict<RF>>)
        requires
            old(self).takes_payload(rf),
        ensures
            Self::payload_handled(old(self), rf, final(self), verdicts@),
    ;
}

/// Handles what a network packet carries.
pub trait TransportSnarfHandler<NetAddr, RF> {
    /// Whether the handler can take the packet: any, if it does not say otherwise.
    open spec fn takes_packet(&self, src_ip: NetAddr, dst_ip: NetAddr, rf: RF) -> bool {
        true
    }

    /// Whether handling the packet can turn the handler `pre` into `post` and give these verdicts:
    /// anything can, if the handler does not say otherwise.
    open spec fn packet_handled(
        pre: &Self,
        src_ip: NetAddr,
        dst_ip: NetAddr,
        rf: RF,
        post: &Self,
        verdicts: Seq<SnarfInterceptVerdict<RF>>,
    ) -> bool {
        true
    }

    /// Handles a TCP packet. Must guarantee that the packet is eventually returned back in the
    /// verdict vector after subsequent calls.
    fn on_transport_packet(&mut self, src_ip: NetAddr, dst_ip: NetAddr, rf: RF) -> (verdicts: Vec<
        SnarfInterceptVerdict<RF>,
    >)
        requires
            old(self).takes_packet(src_ip, dst_ip, rf),
        ensures
            Self::packet_handled(old(self), src_ip, dst_ip, rf, final(self), verdicts@),
    ;
}

/// Handles the data of a stream.
pub trait ApplicationDataSnarfHandler {
    /// Whether handling `call` can turn the handler `pre` into `post`: anything can, if the handler
    /// does not say otherwise.
    open spec fn data_handled(pre: &Self, call: DataCall, post: &Self) -> bool {
        true
    }

    fn on_data(
        &mut self,
        session_id: u64,
        is_client: bool,
        counter: i64,
        data: &mut [u8],
    ) -> (verdict: InterceptVerdict)
        ensures
            final(data)@.len() == old(data)@.len(),
            Self::data_handled(
                old(self),
                (DataCall {
                    session_id,
                    is_client,
                    counter,
                    data: old(data)@,
                    out: final(data)@,
                    verdict,
                }),
                final(self),
            ),
    ;
}

/// A call of a data handler: what it was given, what it made of the data, and what it decided.
pub struct DataCall {
    pub session_id: u64,
    pub is_client: bool,
    pub counter: i64,
    pub data: Seq<u8>,
    pub out: Seq<u8>,
    pub verdict: InterceptVerdict,
}

/// Whether handling `calls` one after the other can turn the handler `pre` into `post`.
pub open spec fn data_trace<AH: ApplicationDataSnarfHandler>(
    pre: AH,
    calls: Seq<DataCall>,
    post: AH,
) -> bool
    decreases calls.len(),
{
    if calls.len() == 0 {
        pre == post
    } else {
        exists|mid: AH|
            data_trace(pre, calls.drop_last(), mid) && #[trigger] AH::data_handled(
                &mid,
                calls.last(),
                &post,
            )
    }
}

/// A handler's trace grows call by call.
pub proof fn lemma_data_trace_push<AH: ApplicationDataSnarfHandler>(
    pre: AH,
    calls: Seq<DataCall>,
    mid: AH,
    call: DataCall,
    post: AH,
)
    requires
        data_trace(pre, calls, mid),
        AH::data_handled(&mid, call, &post),
    ensures
        data_trace(pre, calls.push(call), post),
{
    assert(calls.push(call).drop_last() =~= calls);
    assert(AH::data_handled(&mid, calls.push(call).last(), &post));
}

/// Two traces of a handler make one.
pub proof fn lemma_data_trace_join<AH: ApplicationDataSnarfHandler>(
    pre: AH,
    first: Seq<DataCall>,
    mid: AH,
    second: Seq<DataCall>,
    post: AH,
)
    requires
        data_trace(pre, first, mid),
        data_trace(mid, second, post),
    ensures
        data_trace(pre, first + second, post),
    decreases second.len(),
{
    if second.len() == 0 {
        assert(first + second =~= first);
    } else {
        let last = choose|last: AH|
            data_trace(mid, second.drop_last(), last) && #[trigger] AH::data_handled(
                &last,
                second.last(),
                &post,
            );
        lemma_data_trace_join(pre, first, mid, second.drop_last(), last);
        assert((first + second).drop_last() =~= first + second.drop_last());
        assert(AH::data_handled(&last, (first + second).last(), &post));
    }
}

/// The spy that sees nothing.
#[derive(Default)]
pub struct NoSpy;

/// Looks on at the network layer.
pub trait NetworkSnarfSpy {
    /// Whether seeing the event can turn the spy `pre` into `post`: anything can, if the spy does
    /// not say otherwise.
    open spec fn network_seen(pre: &Self, event: NetworkEvent, post: &Self) -> bool {
        true
    }

    fn before(&mut self, net_header: &[u8], data: &[u8])
        ensures
            Self::network_seen(
                old(self),
                NetworkEvent::Before { net_header: net_header@, data: data@ },
                final(self),
            ),
    ;

    fn after(&mut self, net_header: &[u8], data: &[u8], verdict: &InterceptVerdict)
        ensures
            Self::network_seen(
                old(self),
                NetworkEvent::After { net_header: net_header@, data: data@, verdict: *verdict },
                final(self),
            ),
    ;
}

/// What a spy at the network layer is shown.
pub enum NetworkEvent {
    Before { net_header: Seq<u8>, data: Seq<u8> },
    After { net_header: Seq<u8>, data: Seq<u8>, verdict: InterceptVerdict },
}

impl NetworkSnarfSpy for NoSpy {
    open spec fn network_seen(pre: &Self, event: NetworkEvent, post: &Self) -> bool {
        pre == post
    }

    fn before(&mut self, _net_header: &[u8], _data: &[u8]) {
    }

    fn after(&mut self, _net_header: &[u8], _data: &[u8], _verdict: &InterceptVerdict) {
    }
}

/// Whether seeing `events` one after the other can turn the spy `pre` into `post`.
pub open spec fn network_trace<S: NetworkSnarfSpy>(
    pre: S,
    events: Seq<NetworkEvent>,
    post: S,
) -> bool
    decreases events.len(),
{
    if events.len() == 0 {
        pre == post
    } else {
        exists|mid: S|
            network_trace(pre, events.drop_last(), mid) && #[trigger] S::network_seen(
                &mid,
                events.last(),
                &post,
            )
    }
}

/// A spy's trace grows event by event.
pub proof fn lemma_network_trace_push<S: NetworkSnarfSpy>(
    pre: S,
    events: Seq<NetworkEvent>,
    mid: S,
    event: NetworkEvent,
    post: S,
)
    requires
        network_trace(pre, events, mid),
        S::network_seen(&mid, event, &post),
    ensures
        network_trace(pre, events.push(event), post),
{
    assert(events.push(event).drop_last() =~= events);
    assert(S::network_seen(&mid, events.push(event).last(), &post));
}

/// Looks on at the transport layer.
pub trait TransportSnarfSpy {
    /// Whether seeing the event can turn the spy `pre` into `post`: anything can, if the spy does
    /// not say otherwise.
    open spec fn transport_seen(pre: &Self, event: TransportEvent, post: &Self) -> bool {
        true
    }

    fn before(&mut self, net_header: &[u8], transport_header: &[u8], data: &[u8], session_id: u64)
        ensures
            Self::transport_seen(
                old(self),
                TransportEvent::Before {
                    net_header: net_header@,
                    transport_header: transport_header@,
                    data: data@,
                    session_id,
                },
                final(self),
            ),
    ;

    fn after(
        &mut self,
        net_header: &[u8],
        transport_header: &[u8],
        is_client: bool,
        data: &[u8],
        session_id: u64,
        verdict: &InterceptVerdict,
    )
        ensures
            Self::transport_seen(
                old(self),
                TransportEvent::After {
                    net_header: net_header@,
                    transport_header: transport_header@,
                    is_client,
                    data: data@,
                    session_id,
                    verdict: *verdict,
                },
                final(self),
            ),
    ;

    fn close(&mut self, is_client: bool, session_id: u64)
        ensures
            Self::transport_seen(
                old(self),
                TransportEvent::Close { is_client, session_id },
                final(self),
            ),
    ;
}

/// What a spy at the transport layer is shown.
pub enum TransportEvent {
    Before {
        net_header: Seq<u8>,
        transport_header: Seq<u8>,
        data: Seq<u8>,
        session_id: u64,
    },
    After {
        net_header: Seq<u8>,
        transport_header: Seq<u8>,
        is_client: bool,
        data: Seq<u8>,
        session_id: u64,
        verdict: InterceptVerdict,
    },
    Close { is_client: bool, session_id: u64 },
}

impl TransportSnarfSpy for NoSpy {
    open spec fn transport_seen(pre: &Self, event: TransportEvent, post: &Self) -> bool {
        pre == post
    }

    fn before(
        &mut self,
        _net_header: &[u8],
        _transport_header: &[u8],
        _data: &[u8],
        _session_id: u64,
    ) {
    }

    fn after(
        &mut self,
        _net_header: &[u8],
        _transport_header: &[u8],
        _is_client: bool,
        _data: &[u8],
        _session_id: u64,
        _verdict: &InterceptVerdict,
    ) {
    }

    fn close(&mut self, _is_client: bool, _session_id: u64) {
    }
}

/// Whether seeing `events` one after the other can turn the spy `pre` into `post`.
pub open spec fn transport_trace<S: TransportSnarfSpy>(
    pre: S,
    events: Seq<TransportEvent>,
    post: S,
) -> bool
    decreases events.len(),
{
    if events.len() == 0 {
        pre == post
    } else {
        exists|mid: S|
            transport_trace(pre, events.drop_last(), mid) && #[trigger] S::transport_seen(
                &mid,
                events.last(),
                &post,
            )
    }
}

/// A spy's trace grows event by event.
pub proof fn lemma_transport_trace_push<S: TransportSnarfSpy>(
    pre: S,
    events: Seq<TransportEvent>,
    mid: S,
    event: TransportEvent,
    post: S,
)
    requires
        transport_trace(pre, events, mid),
        S::transport_seen(&mid, event, &post),
    ensures
        transport_trace(pre, events.push(event), post),
{
    assert(events.push(event).drop_last() =~= events);
    assert(S::transport_seen(&mid, events.push(event).last(), &post));
}

/// Two traces of a spy make one.
pub proof fn lemma_transport_trace_join<S: TransportSnarfSpy>(
    pre: S,
    first: Seq<TransportEvent>,
    mid: S,
    second: Seq<TransportEvent>,
    post: S,
)
    requires
        transport_trace(pre, first, mid),
        transport_trace(mid, second, post),
    ensures
        transport_trace(pre, first + second, post),
    decreases second.len(),
{
    if second.len() == 0 {
        assert(first + second =~= first);
    } else {
        let last = choose|last: S|
            transport_trace(mid, second.drop_last(), last) && #[trigger] S::transport_seen(
                &last,
                second.last(),
                &post,
            );
        lemma_transport_trace_join(pre, first, mid, second.drop_last(), last);
        assert((first + second).drop_last() =~= first + second.drop_last());
        assert(S::transport_seen(&last, (first + second).last(), &post));
    }
}

/// No calls leave a data handler as it is, one call does what the handler says of it, and calls that
/// follow others start where those left the handler.
pub proof fn law_data_calls<AH: ApplicationDataSnarfHandler>(
    pre: AH,
    call: DataCall,
    first: Seq<DataCall>,
    second: Seq<DataCall>,
    post: AH,
)
    ensures
        data_trace(pre, seq![], post) <==> pre == post,
        data_trace(pre, seq![call], post) <==> AH::data_handled(&pre, call, &post),
        data_trace(pre, first + second, post) <==> exists|mid: AH|
            #[trigger] data_trace(pre, first, mid) && data_trace(mid, second, post),
{
    let one = seq![call];
    assert(one.drop_last() =~= seq![]);
    if AH::data_handled(&pre, call, &post) {
        assert(data_trace(pre, one.drop_last(), pre));
        assert(AH::data_handled(&pre, one.last(), &post));
    }
    if data_trace(pre, one, post) {
        let mid = choose|mid: AH|
            data_trace(pre, one.drop_last(), mid) && #[trigger] AH::data_handled(
                &mid,
                one.last(),
                &post,
            );
        assert(pre == mid);
    }
    if data_trace(pre, first + second, post) {
        lemma_data_calls_splits(pre, first, second, post);
    }
    if exists|mid: AH| #[trigger] data_trace(pre, first, mid) && data_trace(mid, second, post) {
        let mid = choose|mid: AH|
            #[trigger] data_trace(pre, first, mid) && data_trace(mid, second, post);
        lemma_data_trace_join(pre, first, mid, second, post);
    }
}

proof fn lemma_data_calls_splits<AH: ApplicationDataSnarfHandler>(
    pre: AH,
    first: Seq<DataCall>,
    second: Seq<DataCall>,
    post: AH,
)
    requires
        data_trace(pre, first + second, post),
    ensures
        exists|mid: AH| #[trigger] data_trace(pre, first, mid) && data_trace(mid, second, post),
    decreases second.len(),
{
    let both = first + second;
    if second.len() == 0 {
        assert(both =~= first);
        assert(data_trace(pre, first, post) && data_trace(post, second, post));
    } else {
        let last = choose|last: AH|
            data_trace(pre, both.drop_last(), last) && #[trigger] AH::data_handled(
                &last,
                both.last(),
                &post,
            );
        assert(both.drop_last() =~= first + second.drop_last());
        lemma_data_calls_splits(pre, first, second.drop_last(), last);
        let mid = choose|mid: AH|
            #[trigger] data_trace(pre, first, mid) && data_trace(mid, second.drop_last(), last);
        assert(AH::data_handled(&last, second.last(), &post));
        assert(data_trace(pre, first, mid) && data_trace(mid, second, post));
    }
}

/// Two traces of a spy make one.
pub proof fn lemma_network_trace_join<S: NetworkSnarfSpy>(
    pre: S,
    first: Seq<NetworkEvent>,
    mid: S,
    second: Seq<NetworkEvent>,
    post: S,
)
    requires
        network_trace(pre, first, mid),
        network_trace(mid, second, post),
    ensures
        network_trace(pre, first + second, post),
    decreases second.len(),
{
    if second.len() == 0 {
        assert(first + second =~= first);
    } else {
        let last = choose|last: S|
            network_trace(mid, second.drop_last(), last) && #[trigger] S::network_seen(
                &last,
                second.last(),
                &post,
            );
        lemma_network_trace_join(pre, first, mid, second.drop_last(), last);
        assert((first + second).drop_last() =~= first + second.drop_last());
        assert(S::network_seen(&last, (first + second).last(), &post));
    }
}

/// No events leave a spy as it is, one does what the spy says of it, and events that follow others
/// start where those left the spy.
pub proof fn law_network_events<S: NetworkSnarfSpy>(
    pre: S,
    event: NetworkEvent,
    first: Seq<NetworkEvent>,
    second: Seq<NetworkEvent>,
    post: S,
)
    ensures
        network_trace(pre, seq![], post) <==> pre == post,
        network_trace(pre, seq![event], post) <==> S::network_seen(&pre, event, &post),
        network_trace(pre, first + second, post) <==> exists|mid: S|
            #[trigger] network_trace(pre, first, mid) && network_trace(mid, second, post),
{
    let one = seq![event];
    assert(one.drop_last() =~= seq![]);
    if S::network_seen(&pre, event, &post) {
        assert(network_trace(pre, one.drop_last(), pre));
        assert(S::network_seen(&pre, one.last(), &post));
    }
    if network_trace(pre, one, post) {
        let mid = choose|mid: S|
            network_trace(pre, one.drop_last(), mid) && #[trigger] S::network_seen(
                &mid,
                one.last(),
                &post,
            );
        assert(pre == mid);
    }
    if network_trace(pre, first + second, post) {
        lemma_network_events_splits(pre, first, second, post);
    }
    if exists|mid: S| #[trigger] network_trace(pre, first, mid) && network_trace(mid, second, post) {
        let mid = choose|mid: S|
            #[trigger] network_trace(pre, first, mid) && network_trace(mid, second, post);
        lemma_network_trace_join(pre, first, mid, second, post);
    }
}

proof fn lemma_network_events_splits<S: NetworkSnarfSpy>(
    pre: S,
    first: Seq<NetworkEvent>,
    second: Seq<NetworkEvent>,
    post: S,
)
    requires
        network_trace(pre, first + second, post),
    ensures
        exists|mid: S| #[trigger] network_trace(pre, first, mid) && network_trace(mid, second, post),
    decreases second.len(),
{
    let both = first + second;
    if second.len() == 0 {
        assert(both =~= first);
        assert(network_trace(pre, first, post) && network_trace(post, second, post));
    } else {
        let last = choose|last: S|
            network_trace(pre, both.drop_last(), last) && #[trigger] S::network_seen(
                &last,
                both.last(),
                &post,
            );
        assert(both.drop_last() =~= first + second.drop_last());
        lemma_network_events_splits(pre, first, second.drop_last(), last);
        let mid = choose|mid: S|
            #[trigger] network_trace(pre, first, mid) && network_trace(mid, second.drop_last(), last);
        assert(S::network_seen(&last, second.last(), &post));
        assert(network_trace(pre, first, mid) && network_trace(mid, second, post));
    }
}

/// No events leave a spy as it is, one does what the spy says of it, and events that follow others
/// start where those left the spy.
pub proof fn law_transport_events<S: TransportSnarfSpy>(
    pre: S,
    event: TransportEvent,
    first: Seq<TransportEvent>,
    second: Seq<TransportEvent>,
    post: S,
)
    ensures
        transport_trace(pre, seq![], post) <==> pre == post,
        transport_trace(pre, seq![event], post) <==> S::transport_seen(&pre, event, &post),
        transport_trace(pre, first + second, post) <==> exists|mid: S|
            #[trigger] transport_trace(pre, first, mid) && transport_trace(mid, second, post),
{
    let one = seq![event];
    assert(one.drop_last() =~= seq![]);
    if S::transport_seen(&pre, event, &post) {
        assert(transport_trace(pre, one.drop_last(), pre));
        assert(S::transport_seen(&pre, one.last(), &post));
    }
    if transport_trace(pre, one, post) {
        let mid = choose|mid: S|
            transport_trace(pre, one.drop_last(), mid) && #[trigger] S::transport_seen(
                &mid,
                one.last(),
                &post,
            );
        assert(pre == mid);
    }
    if transport_trace(pre, first + second, post) {
        lemma_transport_events_splits(pre, first, second, post);
    }
    if exists|mid: S| #[trigger] transport_trace(pre, first, mid) && transport_trace(mid, second, post) {
        let mid = choose|mid: S|
            #[trigger] transport_trace(pre, first, mid) && transport_trace(mid, second, post);
        lemma_transport_trace_join(pre, first, mid, second, post);
    }
}

proof fn lemma_transport_events_splits<S: TransportSnarfSpy>(
    pre: S,
    first: Seq<TransportEvent>,
    second: Seq<TransportEvent>,
    post: S,
)
    requires
        transport_trace(pre, first + second, post),
    ensures
        exists|mid: S| #[trigger] transport_trace(pre, first, mid) && transport_trace(mid, second, post),
    decreases second.len(),
{
    let both = first + second;
    if second.len() == 0 {
        assert(both =~= first);
        assert(transport_trace(pre, first, post) && transport_trace(post, second, post));
    } else {
        let last = choose|last: S|
            transport_trace(pre, both.drop_last(), last) && #[trigger] S::transport_seen(
                &last,
                both.last(),
                &post,
            );
        assert(both.drop_last() =~= first + second.drop_last());
        lemma_transport_events_splits(pre, first, second.drop_last(), last);
        let mid = choose|mid: S|
            #[trigger] transport_trace(pre, first, mid) && transport_trace(mid, second.drop_last(), last);
        assert(S::transport_seen(&last, second.last(), &post));
        assert(transport_trace(pre, first, mid) && transport_trace(mid, second, post));
    }
}

} // verus!
