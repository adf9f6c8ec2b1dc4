//! What holds of the TCP handler as a whole.
use vstd::multiset::Multiset;
use vstd::prelude::*;

use crate::addr::NetworkAddr;
use crate::handler::{DataCall, TransportEvent};
use crate::packet::{PacketView, VerdictView};
use crate::sessions::NumberedSessionView;
use crate::tcp::SessionView;
use crate::tcp_step::{Arrival, Reading, TcpState};
use crate::tcp_tracker::{Release, TrackerView, TRACKER_BUFFER_LEN};
use crate::tcp_util::{RST_MASK, SYN_MASK};

verus! {

/// What stays the same of a packet on its way: which one it is, its headers, and its length.
#[verifier::ext_equal]
pub struct PacketShape {
    pub ident: int,
    pub net_header: Seq<u8>,
    pub transport_header: Seq<u8>,
    pub segment_len: int,
}

pub open spec fn shape(packet: PacketView) -> PacketShape {
    PacketShape {
        ident: packet.ident,
        net_header: packet.net_header,
        transport_header: crate::tcp_tracker::header_of(packet.segment),
        segment_len: packet.segment.len() as int,
    }
}

pub open spec fn shapes(packets: Seq<PacketView>) -> Seq<PacketShape> {
    packets.map_values(|p: PacketView| shape(p))
}

/// The packets, whatever their order.
pub open spec fn bag(packets: Seq<PacketView>) -> Multiset<PacketShape> {
    shapes(packets).to_multiset()
}

/// The packets of two sequences.
pub proof fn lemma_bag_join(a: Seq<PacketView>, b: Seq<PacketView>)
    ensures
        bag(a + b) == bag(a).add(bag(b)),
{
    assert(shapes(a + b) =~= shapes(a) + shapes(b));
    vstd::seq_lib::lemma_multiset_commutative(shapes(a), shapes(b));
}

/// A packet alone.
proof fn lemma_bag_one(p: PacketView)
    ensures
        bag(seq![p]) == Multiset::empty().insert(shape(p)),
{
    broadcast use vstd::seq_lib::group_to_multiset_ensures;

    let none: Seq<PacketShape> = seq![];
    assert(shapes(seq![p]) =~= none.push(shape(p)));
    assert(none.to_multiset() =~= Multiset::empty());
}

/// No packet.
proof fn lemma_bag_none()
    ensures
        bag(seq![]) == Multiset::<PacketShape>::empty(),
{
    broadcast use vstd::seq_lib::group_to_multiset_ensures;

    assert(shapes(seq![]) =~= Seq::<PacketShape>::empty());
    assert(bag(seq![]) =~= Multiset::empty());
}

/// Packets without one of them.
proof fn lemma_bag_remove(packets: Seq<PacketView>, i: int)
    requires
        0 <= i < packets.len(),
    ensures
        bag(packets) == bag(packets.remove(i)).insert(shape(packets[i])),
{
    broadcast use vstd::seq_lib::group_to_multiset_ensures;

    assert(shapes(packets.remove(i)) =~= shapes(packets).remove(i));
    assert(shapes(packets)[i] == shape(packets[i]));
    assert(shapes(packets).contains(shape(packets[i])));
    assert(bag(packets) =~= bag(packets).remove(shape(packets[i])).insert(shape(packets[i])));
}

/// The packets that are let go.
pub open spec fn released_packets(releases: Seq<Release>) -> Seq<PacketView> {
    releases.map_values(|r: Release| r.packet)
}

/// Putting retransmitted bytes in place keeps the length of the data.
proof fn lemma_rewritten_len(direction: TrackerView, start: u32, data: Seq<u8>)
    requires
        direction.valid(),
    ensures
        direction.rewritten(start, data).len() == data.len(),
        0 <= direction.new_data_len(start, data.len() as int) <= data.len(),
{
}

/// A packet that is let go is one that was held back.
proof fn lemma_release_shape(direction: TrackerView, packet: PacketView, total: int)
    requires
        direction.valid(),
        crate::tcp_tracker::is_segment(packet.segment),
    ensures
        shape(direction.release_of(packet, total).packet) == shape(packet),
        0 <= direction.release_of(packet, total).new_data_len <= crate::tcp_tracker::data_of(
            packet.segment,
        ).len(),
        crate::tcp_tracker::is_segment(direction.release_of(packet, total).packet.segment),
{
    let data = crate::tcp_tracker::data_of(packet.segment);
    let start = crate::tcp_tracker::start_of(packet.segment);
    lemma_rewritten_len(direction, start, data);
    crate::tcp_tracker::lemma_data_replaced(packet.segment, direction.rewritten(start, data));
}

proof fn lemma_first_ready(direction: TrackerView, i: int, total: int)
    requires
        0 <= i <= direction.queue.len(),
    ensures
        i <= direction.first_ready(i, total) <= direction.queue.len(),
    decreases direction.queue.len() - i,
{
    if i < direction.queue.len() {
        lemma_first_ready(direction, i + 1, total);
    }
}

/// Each packet that is held back is let go or stays, and none is there twice.
pub proof fn lemma_release_conserves(direction: TrackerView, total: int)
    requires
        direction.valid(),
    ensures
        bag(direction.queue) == bag(released_packets(direction.releases(total))).add(
            bag(direction.stays(total)),
        ),
        forall|i: int|
            0 <= i < direction.releases(total).len() ==> {
                let release = #[trigger] direction.releases(total)[i];
                &&& crate::tcp_tracker::is_segment(release.packet.segment)
                &&& 0 <= release.new_data_len <= crate::tcp_tracker::data_of(
                    release.packet.segment,
                ).len()
            },
    decreases direction.queue.len(),
{
    let i = direction.first_ready(0, total);
    lemma_first_ready(direction, 0, total);
    if i < direction.queue.len() {
        let packet = direction.queue[i];
        let release = direction.release_of(packet, total);
        let rest = direction.without(i);
        let rest_total = total + release.new_data_len;
        lemma_without_valid(direction, i);
        lemma_release_shape(direction, packet, total);
        lemma_release_conserves(rest, rest_total);
        lemma_bag_remove(direction.queue, i);
        let more = rest.releases(rest_total);
        assert(released_packets(seq![release] + more) =~= seq![release.packet]
            + released_packets(more));
        lemma_bag_join(seq![release.packet], released_packets(more));
        lemma_bag_one(release.packet);
        assert(bag(direction.queue) =~= bag(released_packets(direction.releases(total))).add(
            bag(direction.stays(total)),
        ));
        assert forall|k: int| 0 <= k < direction.releases(total).len() implies {
            let release = #[trigger] direction.releases(total)[k];
            &&& crate::tcp_tracker::is_segment(release.packet.segment)
            &&& 0 <= release.new_data_len <= crate::tcp_tracker::data_of(
                release.packet.segment,
            ).len()
        } by {
            if k > 0 {
                assert(direction.releases(total)[k] == more[k - 1]);
            }
        }
    } else {
        let none: Seq<PacketView> = seq![];
        assert(released_packets(direction.releases(total)) =~= none);
        assert(direction.queue =~= none + direction.queue);
        lemma_bag_join(none, direction.queue);
    }
}

/// Whether the connection can have come about.
pub open spec fn valid_session<NetAddr>(session: NumberedSessionView<NetAddr>) -> bool {
    session.session.client.valid() && session.session.server.valid()
}

/// Whether the state can have come about.
pub open spec fn valid_state<NetAddr: NetworkAddr>(state: TcpState<NetAddr>) -> bool {
    forall|key| #[trigger] state.sessions.contains_key(key) ==> valid_session(state.sessions[key])
}

/// Whether the packet can be followed.
pub open spec fn valid_packet(packet: PacketView) -> bool {
    &&& crate::tcp_tracker::is_segment(packet.segment)
    &&& crate::tcp_tracker::data_of(packet.segment).len() <= TRACKER_BUFFER_LEN
}

/// The packets that a connection holds back.
pub open spec fn held<NetAddr>(session: NumberedSessionView<NetAddr>) -> Seq<PacketView> {
    session.session.client.queue + session.session.server.queue
}

/// The packets that the connection of the packet holds back.
pub open spec fn held_for<NetAddr: NetworkAddr>(
    state: TcpState<NetAddr>,
    arrival: Arrival<NetAddr>,
) -> Seq<PacketView> {
    if state.sessions.contains_key(arrival.key()) {
        held(state.sessions[arrival.key()])
    } else {
        seq![]
    }
}

/// The packets that verdicts give back.
pub open spec fn returned(verdicts: Seq<VerdictView>) -> Seq<PacketView>
    decreases verdicts.len(),
{
    if verdicts.len() == 0 {
        seq![]
    } else {
        returned(verdicts.drop_last()) + match verdicts.last() {
            VerdictView::Accept(packet) => seq![packet],
            VerdictView::Drop(packet) => seq![packet],
            VerdictView::Keep => seq![],
        }
    }
}

pub proof fn lemma_returned_join(a: Seq<VerdictView>, b: Seq<VerdictView>)
    ensures
        returned(a + b) == returned(a) + returned(b),
    decreases b.len(),
{
    if b.len() == 0 {
        assert(a + b =~= a);
        assert(returned(a) + returned(b) =~= returned(a));
    } else {
        lemma_returned_join(a, b.drop_last());
        assert((a + b).drop_last() =~= a + b.drop_last());
        assert(returned(a + b) =~= returned(a) + returned(b));
    }
}

proof fn lemma_returned_all(packets: Seq<PacketView>)
    ensures
        returned(crate::tcp_step::all_accepted(packets)) == packets,
        returned(crate::tcp_step::all_dropped(packets)) == packets,
    decreases packets.len(),
{
    if packets.len() > 0 {
        lemma_returned_all(packets.drop_last());
        assert(crate::tcp_step::all_accepted(packets).drop_last()
            =~= crate::tcp_step::all_accepted(packets.drop_last()));
        assert(crate::tcp_step::all_dropped(packets).drop_last()
            =~= crate::tcp_step::all_dropped(packets.drop_last()));
        assert(packets =~= packets.drop_last() + seq![packets.last()]);
    } else {
        assert(packets =~= seq![]);
    }
}

/// What a connection gives back when it ends.
pub proof fn lemma_returned_drained<NetAddr>(session: NumberedSessionView<NetAddr>)
    ensures
        returned(crate::tcp_step::drained_verdicts(session)) == held(session),
{
    lemma_returned_join(
        crate::tcp_step::all_dropped(session.session.client.queue),
        crate::tcp_step::all_dropped(session.session.server.queue),
    );
    lemma_returned_all(session.session.client.queue);
    lemma_returned_all(session.session.server.queue);
}

/// Other bytes at the end of the data do not change which packet it is.
pub proof fn lemma_new_data_shape(packet: PacketView, out: Seq<u8>)
    requires
        crate::tcp_tracker::is_segment(packet.segment),
        out.len() <= crate::tcp_tracker::data_of(packet.segment).len(),
    ensures
        shape(crate::tcp_step::with_new_data(packet, out)) == shape(packet),
        crate::tcp_tracker::is_segment(crate::tcp_step::with_new_data(packet, out).segment),
{
    let segment = packet.segment;
    let data = crate::tcp_tracker::data_of(segment);
    let replaced = data.take(data.len() - out.len()) + out;
    crate::tcp_tracker::lemma_data_replaced(segment, replaced);
    assert(segment.take(segment.len() - out.len()) + out =~= crate::tcp_tracker::header_of(segment)
        + replaced);
}

/// Packets with the same header start at the same sequence number.
pub proof fn lemma_same_header(a: PacketView, b: PacketView)
    requires
        crate::tcp_tracker::is_segment(a.segment),
        crate::tcp_tracker::is_segment(b.segment),
        shape(a) == shape(b),
    ensures
        crate::tcp_tracker::start_of(a.segment) == crate::tcp_tracker::start_of(b.segment),
{
    let header = crate::tcp_tracker::header_of(a.segment);
    assert(header == crate::tcp_tracker::header_of(b.segment));
    assert forall|i: int| 0 <= i < 14 implies a.segment[i] == b.segment[i] by {
        assert(header[i] == a.segment[i]);
        assert(crate::tcp_tracker::header_of(b.segment)[i] == b.segment[i]);
    }
}

/// What holding a packet against its connection leaves of the two.
pub proof fn lemma_reading<NetAddr: NetworkAddr>(
    state: TcpState<NetAddr>,
    arrival: Arrival<NetAddr>,
    fresh: SessionView<NetAddr>,
)
    requires
        valid_state(state),
        valid_packet(arrival.packet),
        fresh.is_fresh(),
    ensures
        ({
            let reading = crate::tcp_step::reading(state, arrival, fresh);
            &&& valid_session(reading.session)
            &&& valid_packet(reading.packet)
            &&& shape(reading.packet) == shape(arrival.packet)
            &&& bag(held_for(state, arrival)) == bag(returned(reading.verdicts)).add(
                bag(held(reading.session)),
            )
            &&& reading.is_future() ==> reading.verdicts.len() == 0 && reading.direction().init
                && crate::tcp_tracker::data_of(reading.packet.segment).len() > 0
            &&& reading.new_data_len() <= crate::tcp_tracker::data_of(reading.packet.segment).len()
            &&& !reading.input.tracker_wind_input.result.new_connection
        }),
{
    let reading = crate::tcp_step::reading(state, arrival, fresh);
    let segment = arrival.packet.segment;
    let data = crate::tcp_tracker::data_of(segment);
    let seq = crate::tcp_util::seq_of(segment) as u32;
    let session = if crate::tcp_step::opens(state, arrival) {
        fresh
    } else {
        state.sessions[arrival.key()].session
    };
    let is_client = session.from_client(arrival.src_net, arrival.src_port());
    let direction = session.direction(is_client);
    assert(TrackerView::fresh().valid());
    assert(direction.valid());
    lemma_rewritten_len(direction, crate::tcp_tracker::start_seq(segment[13], seq), data);
    crate::tcp_tracker::lemma_data_replaced(
        segment,
        direction.plunged_data(segment[13], seq, data),
    );
    let none: Seq<PacketView> = seq![];
    if crate::tcp_step::reopens(state, arrival) {
        let found = state.sessions[arrival.key()];
        lemma_returned_drained(found);
        assert(held(reading.session) =~= none);
        assert(held(found) =~= held(found) + none);
        lemma_bag_join(held(found), none);
    } else {
        assert(returned(reading.verdicts) =~= none);
        assert(held_for(state, arrival) =~= held(reading.session));
        assert(held(reading.session) =~= none + held(reading.session));
        lemma_bag_join(none, held(reading.session));
    }
}

/// What becomes of a packet that is not held back leaves the queues as they are.
pub proof fn lemma_settled<NetAddr: NetworkAddr>(reading: Reading<NetAddr>, own: Option<DataCall>)
    requires
        valid_session(reading.session),
        valid_packet(reading.packet),
        reading.new_data_len() <= crate::tcp_tracker::data_of(reading.packet.segment).len(),
        !reading.input.tracker_wind_input.result.new_connection,
        reading.own_call_fits(own),
    ensures
        valid_session(reading.settled(own).session),
        held(reading.settled(own).session) == held(reading.session),
        shape(reading.settled(own).packet) == shape(reading.packet),
{
    match own {
        Some(call) => {
            lemma_new_data_shape(reading.packet, call.out);
        },
        None => {},
    }
}

/// The packets that are let go with what the data handler made of their data.
proof fn lemma_kept_packets(direction: TrackerView, calls: Seq<DataCall>, is_client: bool, id: u64)
    requires
        direction.valid(),
        crate::tcp_step::are_calls_for(calls, direction.releases(0), is_client, id),
    ensures
        bag(direction.queue) == bag(
            crate::tcp_step::kept_packets(direction.releases(0), calls),
        ).add(bag(direction.stays(0))),
{
    let releases = direction.releases(0);
    let packets = crate::tcp_step::kept_packets(releases, calls);
    lemma_release_conserves(direction, 0);
    assert forall|i: int| 0 <= i < releases.len() implies shape(#[trigger] packets[i]) == shape(
        releases[i].packet,
    ) by {
        assert(crate::tcp_step::is_call_for(
            calls[i],
            releases[i].packet,
            releases[i].new_data_len,
            is_client,
            id,
        ));
        lemma_new_data_shape(releases[i].packet, calls[i].out);
    }
    assert(shapes(packets) =~= shapes(released_packets(releases)));
}

/// Packets that are let go at once add no more than is remembered.
pub proof fn lemma_release_total_fits(direction: TrackerView, total: int)
    requires
        direction.valid(),
        0 <= total <= TRACKER_BUFFER_LEN,
    ensures
        0 <= crate::tcp_tracker::release_total(direction.releases(total)) <= TRACKER_BUFFER_LEN
            - total,
    decreases direction.queue.len(),
{
    let i = direction.first_ready(0, total);
    lemma_first_ready(direction, 0, total);
    if i < direction.queue.len() {
        let packet = direction.queue[i];
        let release = direction.release_of(packet, total);
        assert(crate::tcp_tracker::is_segment(packet.segment));
        lemma_release_shape(direction, packet, total);
        lemma_first_is_ready(direction, 0, total);
        lemma_without_valid(direction, i);
        lemma_release_total_fits(direction.without(i), total + release.new_data_len);
        lemma_release_total_first(
            release,
            direction.without(i).releases(total + release.new_data_len),
        );
    }
}

proof fn lemma_without_valid(direction: TrackerView, i: int)
    requires
        direction.valid(),
        0 <= i < direction.queue.len(),
    ensures
        direction.without(i).valid(),
{
    let rest = direction.without(i);
    assert forall|j: int| 0 <= j < rest.queue.len() implies crate::tcp_tracker::is_segment(
        (#[trigger] rest.queue[j]).segment,
    ) && 0 < crate::tcp_tracker::data_of(rest.queue[j].segment).len() <= TRACKER_BUFFER_LEN by {
        assert(rest.queue[j] == direction.queue[if j < i { j } else { j + 1 }]);
    }
}

/// The packets that stay can have come about.
proof fn lemma_stays_valid(direction: TrackerView, total: int)
    requires
        direction.valid(),
    ensures
        (TrackerView { queue: direction.stays(total), ..direction }).valid(),
    decreases direction.queue.len(),
{
    let i = direction.first_ready(0, total);
    lemma_first_ready(direction, 0, total);
    if i < direction.queue.len() {
        let release = direction.release_of(direction.queue[i], total);
        lemma_without_valid(direction, i);
        lemma_stays_valid(direction.without(i), total + release.new_data_len);
    }
}

/// The data of calls is as long as the new data of the packets.
pub proof fn lemma_joined_len(calls: Seq<DataCall>, releases: Seq<Release>, is_client: bool, id: u64)
    requires
        crate::tcp_step::are_calls_for(calls, releases, is_client, id),
    ensures
        crate::tcp_tracker::joined(crate::tcp_step::outs(calls)).len()
            == crate::tcp_tracker::release_total(releases),
    decreases calls.len(),
{
    if calls.len() > 0 {
        let fewer = calls.drop_last();
        assert(crate::tcp_step::is_call_for(
            calls[calls.len() - 1],
            releases.last().packet,
            releases.last().new_data_len,
            is_client,
            id,
        ));
        assert forall|i: int| 0 <= i < fewer.len() implies crate::tcp_step::is_call_for(
            #[trigger] fewer[i],
            releases.drop_last()[i].packet,
            releases.drop_last()[i].new_data_len,
            is_client,
            id,
        ) by {
            assert(fewer[i] == calls[i]);
        }
        lemma_joined_len(fewer, releases.drop_last(), is_client, id);
        assert(crate::tcp_step::outs(calls).drop_last() =~= crate::tcp_step::outs(fewer));
    }
}

/// What packets that are let go at once leave of a direction.
pub proof fn lemma_round(direction: TrackerView, calls: Seq<DataCall>, is_client: bool, id: u64)
    requires
        direction.valid(),
        crate::tcp_step::are_calls_for(calls, direction.releases(0), is_client, id),
    ensures
        ({
            let over = crate::tcp_step::round_over(direction, calls);
            &&& over.valid()
            &&& over.init == direction.init
            &&& bag(direction.queue) == bag(
                crate::tcp_step::kept_packets(direction.releases(0), calls),
            ).add(bag(over.queue))
        }),
{
    lemma_kept_packets(direction, calls, is_client, id);
    lemma_release_total_fits(direction, 0);
    lemma_joined_len(calls, direction.releases(0), is_client, id);
    lemma_stays_valid(direction, 0);
    let over = crate::tcp_step::round_over(direction, calls);
    let fewer = TrackerView { queue: direction.stays(0), ..direction };
    assert(over.queue == fewer.queue);
    if !direction.init {
        assert(direction.first_ready(0, 0) == 0);
        assert(direction.releases(0) =~= seq![]);
    }
}

/// Whether packets of the direction are held back only while data before them is missing.
pub open spec fn only_later_waits(direction: TrackerView) -> bool {
    forall|i: int|
        0 <= i < direction.queue.len() ==> direction.is_ahead(
            crate::tcp_tracker::start_of((#[trigger] direction.queue[i]).segment),
        )
}

/// What all packets that are let go leave of a direction.
pub proof fn lemma_let_go(direction: TrackerView, calls: Seq<DataCall>, is_client: bool, id: u64)
    requires
        direction.valid(),
        crate::tcp_step::let_go_calls_fit(direction, calls, is_client, id),
    ensures
        ({
            let after = crate::tcp_step::let_go_direction(direction, calls);
            &&& after.valid()
            &&& only_later_waits(after)
            &&& crate::tcp_step::let_go_packets(direction, calls).len() == calls.len()
            &&& bag(direction.queue) == bag(
                crate::tcp_step::let_go_packets(direction, calls),
            ).add(bag(after.queue))
        }),
    decreases calls.len(),
{
    let releases = direction.releases(0);
    let n = releases.len() as int;
    if n == 0 {
        let none: Seq<PacketView> = seq![];
        assert(direction.queue =~= none + direction.queue);
        lemma_bag_join(none, direction.queue);
        lemma_first_ready(direction, 0, 0);
        assert(direction.first_ready(0, 0) == direction.queue.len());
        assert forall|i: int| 0 <= i < direction.queue.len() implies direction.is_ahead(
            crate::tcp_tracker::start_of((#[trigger] direction.queue[i]).segment),
        ) by {
            lemma_none_ready(direction, 0, 0, i);
        }
    } else {
        let first = calls.take(n);
        let over = crate::tcp_step::round_over(direction, first);
        let packets = crate::tcp_step::kept_packets(releases, first);
        let more = crate::tcp_step::let_go_packets(over, calls.skip(n));
        let after = crate::tcp_step::let_go_direction(direction, calls);
        lemma_round(direction, first, is_client, id);
        lemma_let_go(over, calls.skip(n), is_client, id);
        lemma_bag_join(packets, more);
        assert(bag(direction.queue) =~= bag(packets + more).add(bag(after.queue)));
    }
}

/// The packets of a connection are those of its directions.
proof fn lemma_held<NetAddr>(session: NumberedSessionView<NetAddr>)
    ensures
        bag(held(session)) == bag(session.session.client.queue).add(
            bag(session.session.server.queue),
        ),
{
    lemma_bag_join(session.session.client.queue, session.session.server.queue);
}

/// A packet that is held back is added to those of its connection.
proof fn lemma_kept_conserves<NetAddr: NetworkAddr>(reading: Reading<NetAddr>)
    ensures
        bag(held(reading.kept())) == bag(held(reading.session)).insert(shape(reading.packet)),
{
    let packet = reading.packet;
    let queue = reading.direction().queue;
    assert(queue.push(packet) =~= queue + seq![packet]);
    lemma_bag_one(packet);
    lemma_bag_join(queue, seq![packet]);
    lemma_held(reading.session);
    lemma_held(reading.kept());
    assert(bag(held(reading.kept())) =~= bag(held(reading.session)).insert(shape(packet)));
}

/// A packet that leaves is given back, together with those that leave with it.
proof fn lemma_leaving_conserves<NetAddr: NetworkAddr>(
    reading: Reading<NetAddr>,
    own: Option<DataCall>,
    kept: Seq<DataCall>,
)
    requires
        valid_session(reading.session),
        valid_packet(reading.packet),
        reading.new_data_len() <= crate::tcp_tracker::data_of(reading.packet.segment).len(),
        !reading.input.tracker_wind_input.result.new_connection,
        !reading.keeps(),
        crate::tcp_step::calls_fit(reading, own, kept),
    ensures
        ({
            let leaving = returned(crate::tcp_step::leaving_verdicts(reading, own, kept));
            let stays = crate::tcp_step::left_session(reading, own, kept);
            bag(held(reading.session)).insert(shape(reading.packet)) == if reading.settled(
                own,
            ).removes {
                bag(leaving)
            } else {
                bag(held(stays)).add(bag(leaving))
            }
        }),
{
    lemma_settled(reading, own);
    let settled = reading.settled(own);
    let verdict = crate::tcp_step::verdict_on(settled.verdict, settled.packet);
    let leaving = returned(crate::tcp_step::leaving_verdicts(reading, own, kept));
    let none: Seq<PacketView> = seq![];
    assert(returned(seq![verdict]) =~= seq![settled.packet]) by {
        assert(seq![verdict].drop_last() =~= seq![]);
        assert(returned(seq![verdict].drop_last()) =~= none);
    }
    lemma_bag_one(settled.packet);
    lemma_held(settled.session);
    if settled.removes {
        let drained = crate::tcp_step::drained_verdicts(settled.session);
        lemma_returned_drained(settled.session);
        lemma_returned_join(drained, seq![verdict]);
        lemma_bag_join(held(settled.session), seq![settled.packet]);
        assert(bag(held(reading.session)).insert(shape(reading.packet)) =~= bag(leaving));
    } else {
        let is_client = reading.input.is_client;
        let stays = crate::tcp_step::left_session(reading, own, kept);
        let direction = crate::tcp_step::settled_direction(reading, own);
        let packets = crate::tcp_step::let_go_packets(direction, kept);
        lemma_let_go(direction, kept, is_client, reading.session.session_id);
        lemma_returned_all(packets);
        lemma_returned_join(crate::tcp_step::all_accepted(packets), seq![verdict]);
        lemma_bag_join(packets, seq![settled.packet]);
        lemma_held(stays);
        assert(bag(held(reading.session)).insert(shape(reading.packet)) =~= bag(
            held(stays),
        ).add(bag(leaving)));
    }
}

/// No packet is lost and none is given back twice: what the connection held back, and the packet
/// that arrives, is what the connection holds back then, and what the verdicts give back, each with
/// the headers and the length that it had. The other connections stay as they are.
pub proof fn law_no_packet_is_lost<NetAddr: NetworkAddr>(
    state: TcpState<NetAddr>,
    arrival: Arrival<NetAddr>,
    fresh: SessionView<NetAddr>,
    own: Option<DataCall>,
    kept: Seq<DataCall>,
)
    requires
        valid_state(state),
        valid_packet(arrival.packet),
        fresh.is_fresh(),
        crate::tcp_step::calls_fit(crate::tcp_step::reading(state, arrival, fresh), own, kept),
    ensures
        ({
            let reading = crate::tcp_step::reading(state, arrival, fresh);
            let outcome = crate::tcp_step::outcome(arrival, reading, own, kept);
            &&& bag(held_for(state, arrival) + seq![arrival.packet]) == bag(
                held_for(outcome.state, arrival) + returned(outcome.verdicts),
            )
            &&& outcome.state.sessions.remove(arrival.key()) == state.sessions.remove(arrival.key())
        }),
{
    let reading = crate::tcp_step::reading(state, arrival, fresh);
    let outcome = crate::tcp_step::outcome(arrival, reading, own, kept);
    let before = held_for(state, arrival);
    let after = held_for(outcome.state, arrival);
    let none: Seq<PacketView> = seq![];
    assert(outcome.state.sessions.remove(arrival.key()) =~= state.sessions.remove(arrival.key()));
    lemma_reading(state, arrival, fresh);
    lemma_bag_join(before, seq![arrival.packet]);
    lemma_bag_join(after, returned(outcome.verdicts));
    lemma_bag_one(arrival.packet);
    lemma_bag_none();
    if reading.keeps() {
        assert(returned(outcome.verdicts) =~= none) by {
            assert(outcome.verdicts.drop_last() =~= seq![]);
            assert(returned(outcome.verdicts.drop_last()) =~= none);
        }
        assert(returned(reading.verdicts) =~= none);
        lemma_kept_conserves(reading);
    } else {
        let leaving = crate::tcp_step::leaving_verdicts(reading, own, kept);
        lemma_returned_join(reading.verdicts, leaving);
        lemma_bag_join(returned(reading.verdicts), returned(leaving));
        lemma_leaving_conserves(reading, own, kept);
    }
    assert(bag(before + seq![arrival.packet]) =~= bag(after + returned(outcome.verdicts)));
}

/// Every packet is answered: it is held back and that is all, or the last verdict gives it back.
pub proof fn law_packet_is_answered<NetAddr: NetworkAddr>(
    state: TcpState<NetAddr>,
    arrival: Arrival<NetAddr>,
    fresh: SessionView<NetAddr>,
    own: Option<DataCall>,
    kept: Seq<DataCall>,
)
    requires
        valid_state(state),
        valid_packet(arrival.packet),
        fresh.is_fresh(),
        crate::tcp_step::calls_fit(crate::tcp_step::reading(state, arrival, fresh), own, kept),
    ensures
        ({
            let reading = crate::tcp_step::reading(state, arrival, fresh);
            let verdicts = crate::tcp_step::outcome(arrival, reading, own, kept).verdicts;
            &&& verdicts.len() > 0
            &&& match verdicts.last() {
                VerdictView::Accept(packet) => shape(packet) == shape(arrival.packet),
                VerdictView::Drop(packet) => shape(packet) == shape(arrival.packet),
                VerdictView::Keep => reading.keeps() && verdicts.len() == 1,
            }
            &&& reading.keeps() ==> {
                let outcome = crate::tcp_step::outcome(arrival, reading, own, kept);
                &&& held_for(outcome.state, arrival).contains(reading.packet)
                &&& shape(reading.packet) == shape(arrival.packet)
            }
        }),
{
    let reading = crate::tcp_step::reading(state, arrival, fresh);
    lemma_reading(state, arrival, fresh);
    if reading.keeps() {
        let queue = reading.direction().queue;
        let session = reading.kept();
        let i = if reading.input.is_client {
            queue.len() as int
        } else {
            (session.session.client.queue.len() + queue.len()) as int
        };
        assert(held(session)[i] == reading.packet);
    } else {
        lemma_settled(reading, own);
    }
}

/// A reset ends the connection: it is no longer followed, everything that it held back is dropped,
/// and the spy is told of the end, first for the server and then for the client.
pub proof fn law_reset_ends_connection<NetAddr: NetworkAddr>(
    state: TcpState<NetAddr>,
    arrival: Arrival<NetAddr>,
    fresh: SessionView<NetAddr>,
    own: Option<DataCall>,
    kept: Seq<DataCall>,
)
    requires
        fresh.is_fresh(),
        crate::tcp_step::calls_fit(crate::tcp_step::reading(state, arrival, fresh), own, kept),
        crate::tcp_util::has_flag(arrival.packet.segment[13], RST_MASK),
    ensures
        ({
            let reading = crate::tcp_step::reading(state, arrival, fresh);
            let outcome = crate::tcp_step::outcome(arrival, reading, own, kept);
            let id = reading.session.session_id;
            let n = outcome.events.len();
            &&& !outcome.state.sessions.contains_key(arrival.key())
            &&& kept.len() == 0
            &&& outcome.verdicts == reading.verdicts + crate::tcp_step::drained_verdicts(
                reading.session,
            ) + seq![
                crate::tcp_step::verdict_on(
                    reading.settled(own).verdict,
                    reading.settled(own).packet,
                ),
            ]
            &&& n >= 2
            &&& outcome.events[n - 2] == (TransportEvent::Close { is_client: false, session_id: id })
            &&& outcome.events[n - 1] == (TransportEvent::Close { is_client: true, session_id: id })
        }),
{
    let reading = crate::tcp_step::reading(state, arrival, fresh);
    let outcome = crate::tcp_step::outcome(arrival, reading, own, kept);
    let settled = reading.settled(own);
    assert(settled.removes);
    assert(crate::tcp_step::drained_verdicts(settled.session)
        == crate::tcp_step::drained_verdicts(reading.session));
    assert(outcome.verdicts =~= reading.verdicts + crate::tcp_step::drained_verdicts(
        reading.session,
    ) + seq![crate::tcp_step::verdict_on(settled.verdict, settled.packet)]);
}

/// The sequence number that the header of a packet gives to the first of its last `n` bytes is the
/// one that comes next in the stream, if these are its new data and it is no SYN.
proof fn lemma_new_data_comes_next(direction: TrackerView, segment: Seq<u8>)
    requires
        crate::tcp_tracker::is_segment(segment),
        !crate::tcp_util::has_flag(segment[13], SYN_MASK),
    ensures
        ({
            let seq = crate::tcp_util::seq_of(segment) as u32;
            let n = crate::tcp_tracker::data_of(segment).len() as int;
            let new_data_len = direction.new_data_len(crate::tcp_tracker::start_of(segment), n);
            new_data_len > 0 ==> crate::util::seq_plus(seq, n - new_data_len) == if direction.init {
                direction.seq
            } else {
                seq
            }
        }),
{
}

proof fn lemma_released_data_comes_next(direction: TrackerView, total: int, i: int)
    requires
        direction.valid(),
        direction.init,
        0 <= total,
        0 <= i < direction.releases(total).len(),
        direction.releases(total)[i].new_data_len > 0,
        !crate::tcp_util::has_flag(direction.releases(total)[i].packet.segment[13], SYN_MASK),
    ensures
        ({
            let releases = direction.releases(total);
            let segment = releases[i].packet.segment;
            crate::util::seq_plus(
                crate::tcp_util::seq_of(segment) as u32,
                crate::tcp_tracker::data_of(segment).len() - releases[i].new_data_len,
            ) == crate::util::seq_plus(
                direction.seq,
                total + crate::tcp_tracker::release_total(releases.take(i)),
            )
        }),
    decreases direction.queue.len(),
{
    let k = direction.first_ready(0, total);
    lemma_first_ready(direction, 0, total);
    let packet = direction.queue[k];
    let release = direction.release_of(packet, total);
    let rest = direction.without(k);
    let rest_total = total + release.new_data_len;
    let releases = direction.releases(total);
    let more = rest.releases(rest_total);
    assert(crate::tcp_tracker::is_segment(packet.segment));
    lemma_release_shape(direction, packet, total);
    lemma_first_is_ready(direction, 0, total);
    if i == 0 {
        assert(releases.take(0) =~= seq![]);
        let data = crate::tcp_tracker::data_of(packet.segment);
        let start = crate::tcp_tracker::start_of(packet.segment);
        lemma_rewritten_len(direction, start, data);
        crate::tcp_tracker::lemma_data_replaced(packet.segment, direction.rewritten(start, data));
        assert(release.packet.segment[13] == packet.segment[13]) by {
            assert(crate::tcp_tracker::header_of(release.packet.segment)[13]
                == crate::tcp_tracker::header_of(packet.segment)[13]);
        }
        lemma_new_data_comes_next(direction, packet.segment);
    } else {
        lemma_without_valid(direction, k);
        assert(releases[i] == more[i - 1]);
        lemma_released_data_comes_next(rest, rest_total, i - 1);
        assert(releases.take(i) =~= seq![release] + more.take(i - 1));
        lemma_release_total_first(release, more.take(i - 1));
    }
}

proof fn lemma_first_is_ready(direction: TrackerView, i: int, total: int)
    requires
        0 <= i <= direction.queue.len(),
        direction.first_ready(i, total) < direction.queue.len(),
    ensures
        direction.ready(direction.queue[direction.first_ready(i, total)], total),
    decreases direction.queue.len() - i,
{
    if i < direction.queue.len() && !direction.ready(direction.queue[i], total) {
        lemma_first_is_ready(direction, i + 1, total);
    }
}

proof fn lemma_release_total_first(first: Release, more: Seq<Release>)
    ensures
        crate::tcp_tracker::release_total(seq![first] + more) == first.new_data_len
            + crate::tcp_tracker::release_total(more),
    decreases more.len(),
{
    let all = seq![first] + more;
    if more.len() == 0 {
        assert(all.drop_last() =~= seq![]);
        assert(crate::tcp_tracker::release_total(all.drop_last()) == 0);
    } else {
        assert(all.drop_last() =~= seq![first] + more.drop_last());
        lemma_release_total_first(first, more.drop_last());
    }
}

/// The data of packets that are let go at once comes next, packet by packet.
proof fn lemma_round_in_order(
    direction: TrackerView,
    calls: Seq<DataCall>,
    is_client: bool,
    id: u64,
    i: int,
)
    requires
        direction.valid(),
        crate::tcp_step::are_calls_for(calls, direction.releases(0), is_client, id),
        0 <= i < calls.len(),
        calls[i].data.len() > 0,
        !crate::tcp_util::has_flag(
            crate::tcp_step::kept_packets(direction.releases(0), calls)[i].segment[13],
            SYN_MASK,
        ),
    ensures
        calls[i].counter == crate::util::seq_plus(
            direction.seq,
            crate::tcp_tracker::joined(crate::tcp_step::outs(calls.take(i))).len() as int,
        ),
{
    let releases = direction.releases(0);
    let release = releases[i];
    let packet = crate::tcp_step::kept_packets(releases, calls)[i];
    assert(crate::tcp_step::is_call_for(
        calls[i],
        release.packet,
        release.new_data_len,
        is_client,
        id,
    ));
    lemma_release_conserves(direction, 0);
    lemma_new_data_shape(release.packet, calls[i].out);
    assert(packet.segment[13] == release.packet.segment[13]) by {
        assert(crate::tcp_tracker::header_of(packet.segment)[13]
            == crate::tcp_tracker::header_of(release.packet.segment)[13]);
    }
    if !direction.init {
        assert(releases =~= seq![]);
    }
    lemma_released_data_comes_next(direction, 0, i);
    assert forall|j: int| 0 <= j < i implies crate::tcp_step::is_call_for(
        #[trigger] calls.take(i)[j],
        releases.take(i)[j].packet,
        releases.take(i)[j].new_data_len,
        is_client,
        id,
    ) by {
        assert(calls[j] == calls.take(i)[j]);
    }
    lemma_joined_len(calls.take(i), releases.take(i), is_client, id);
}

/// The data of packets that are let go comes next, packet by packet.
pub proof fn lemma_let_go_in_order(
    direction: TrackerView,
    calls: Seq<DataCall>,
    is_client: bool,
    id: u64,
    i: int,
)
    requires
        direction.valid(),
        crate::tcp_step::let_go_calls_fit(direction, calls, is_client, id),
        0 <= i < calls.len(),
        calls[i].data.len() > 0,
        !crate::tcp_util::has_flag(
            crate::tcp_step::let_go_packets(direction, calls)[i].segment[13],
            SYN_MASK,
        ),
    ensures
        calls[i].counter == crate::util::seq_plus(
            direction.seq,
            crate::tcp_tracker::joined(crate::tcp_step::outs(calls.take(i))).len() as int,
        ),
    decreases calls.len(),
{
    let releases = direction.releases(0);
    let n = releases.len() as int;
    let first = calls.take(n);
    let packets = crate::tcp_step::kept_packets(releases, first);
    let all_packets = crate::tcp_step::let_go_packets(direction, calls);
    let over = crate::tcp_step::round_over(direction, first);
    if i < n {
        assert(all_packets[i] == packets[i]);
        assert(first.take(i) =~= calls.take(i));
        lemma_round_in_order(direction, first, is_client, id, i);
    } else {
        let rest = calls.skip(n);
        let later = rest.take(i - n);
        lemma_round(direction, first, is_client, id);
        lemma_let_go(over, rest, is_client, id);
        assert(all_packets[i] == crate::tcp_step::let_go_packets(over, rest)[i - n]);
        lemma_let_go_in_order(over, rest, is_client, id, i - n);
        let x = crate::tcp_tracker::joined(crate::tcp_step::outs(first)).len() as int;
        let y = crate::tcp_tracker::joined(crate::tcp_step::outs(later)).len() as int;
        assert(crate::tcp_tracker::joined(crate::tcp_step::outs(calls.take(i))).len() == x + y) by {
            assert(crate::tcp_step::outs(calls.take(i)) =~= crate::tcp_step::outs(first)
                + crate::tcp_step::outs(later));
            lemma_joined_join(crate::tcp_step::outs(first), crate::tcp_step::outs(later));
        }
        assert(over.seq == crate::util::seq_plus(direction.seq, x));
        lemma_seq_plus_twice(direction.seq, x, y);
    }
}

pub proof fn lemma_seq_plus_twice(seq: u32, x: int, y: int)
    requires
        0 <= x,
        0 <= y,
    ensures
        crate::util::seq_plus(crate::util::seq_plus(seq, x), y) == crate::util::seq_plus(
            seq,
            x + y,
        ),
{
}

pub proof fn lemma_joined_join(a: Seq<Seq<u8>>, b: Seq<Seq<u8>>)
    ensures
        crate::tcp_tracker::joined(a + b) == crate::tcp_tracker::joined(a)
            + crate::tcp_tracker::joined(b),
    decreases b.len(),
{
    if b.len() == 0 {
        assert(a + b =~= a);
        assert(crate::tcp_tracker::joined(a) + crate::tcp_tracker::joined(b)
            =~= crate::tcp_tracker::joined(a));
    } else {
        lemma_joined_join(a, b.drop_last());
        assert((a + b).drop_last() =~= a + b.drop_last());
        assert(crate::tcp_tracker::joined(a + b) =~= crate::tcp_tracker::joined(a)
            + crate::tcp_tracker::joined(b));
    }
}

/// The data handler gets the data of a direction in order and without gaps: each call is handed the
/// bytes that come next, under the sequence number that comes next. A SYN takes a sequence number
/// itself; data that comes with it is handed over under the number of the SYN.
pub proof fn law_data_comes_in_order<NetAddr: NetworkAddr>(
    state: TcpState<NetAddr>,
    arrival: Arrival<NetAddr>,
    fresh: SessionView<NetAddr>,
    own: Option<DataCall>,
    kept: Seq<DataCall>,
)
    requires
        valid_state(state),
        valid_packet(arrival.packet),
        fresh.is_fresh(),
        crate::tcp_step::calls_fit(crate::tcp_step::reading(state, arrival, fresh), own, kept),
    ensures
        ({
            let reading = crate::tcp_step::reading(state, arrival, fresh);
            let wound = reading.direction().wound(reading.input.tracker_wind_input);
            let settled = crate::tcp_step::settled_direction(reading, own);
            let packets = crate::tcp_step::let_go_packets(settled, kept);
            &&& own matches Some(call) ==> {
                &&& !crate::tcp_util::has_flag(arrival.packet.segment[13], SYN_MASK)
                    ==> call.counter == wound.seq
                &&& settled.seq == crate::util::seq_plus(wound.seq, call.out.len() as int)
            }
            &&& forall|i: int|
                0 <= i < kept.len() && (#[trigger] kept[i]).data.len() > 0
                    && !crate::tcp_util::has_flag(packets[i].segment[13], SYN_MASK)
                    ==> kept[i].counter == crate::util::seq_plus(
                    settled.seq,
                    crate::tcp_tracker::joined(crate::tcp_step::outs(kept.take(i))).len() as int,
                )
        }),
{
    let reading = crate::tcp_step::reading(state, arrival, fresh);
    lemma_reading(state, arrival, fresh);
    if !reading.keeps() {
        lemma_settled(reading, own);
        let segment = arrival.packet.segment;
        if own is Some && !crate::tcp_util::has_flag(segment[13], SYN_MASK) {
            let session = if crate::tcp_step::opens(state, arrival) {
                fresh
            } else {
                state.sessions[arrival.key()].session
            };
            let direction = session.direction(reading.input.is_client);
            lemma_new_data_comes_next(direction, segment);
            let data = crate::tcp_tracker::data_of(segment);
            let seq = crate::tcp_util::seq_of(segment) as u32;
            assert(direction.valid());
            lemma_rewritten_len(direction, crate::tcp_tracker::start_of(segment), data);
            crate::tcp_tracker::lemma_data_replaced(
                segment,
                direction.plunged_data(segment[13], seq, data),
            );
        }
        let is_client = reading.input.is_client;
        let id = reading.session.session_id;
        let settled = crate::tcp_step::settled_direction(reading, own);
        let packets = crate::tcp_step::let_go_packets(settled, kept);
        assert forall|i: int|
            0 <= i < kept.len() && (#[trigger] kept[i]).data.len() > 0
                && !crate::tcp_util::has_flag(
                packets[i].segment[13],
                SYN_MASK,
            ) implies kept[i].counter == crate::util::seq_plus(
            settled.seq,
            crate::tcp_tracker::joined(crate::tcp_step::outs(kept.take(i))).len() as int,
        ) by {
            lemma_let_go_in_order(settled, kept, is_client, id, i);
        }
    }
}

proof fn lemma_none_ready(direction: TrackerView, from: int, total: int, i: int)
    requires
        0 <= from <= i < direction.queue.len(),
        direction.first_ready(from, total) == direction.queue.len(),
    ensures
        !direction.ready(direction.queue[i], total),
    decreases i - from,
{
    if from < i {
        lemma_none_ready(direction, from + 1, total, i);
    }
}

/// Data that reaches beyond what has passed is new from there on, wherever it starts, if it does not
/// come later: no such data passes without the data handler, also where the stream was picked up in
/// its middle.
pub proof fn law_what_reaches_beyond_is_new(direction: TrackerView, start: u32, n: int)
    requires
        direction.valid(),
        direction.init,
        n <= TRACKER_BUFFER_LEN,
        start <= direction.seq < start + n,
    ensures
        direction.new_data_len(start, n) == start + n - direction.seq,
        direction.retransmitted(start, n) == direction.seq - start,
{
}

/// A packet that repeats data which has passed carries what passed, whatever the data handler made
/// of it then, and adds nothing: it looks the same however often it is sent. This holds while the
/// data is remembered. The sequence numbers are compared as they are, so it holds until they start
/// over.
pub proof fn law_retransmission_repeats_what_passed(
    direction: TrackerView,
    passed: Seq<u8>,
    later: Seq<u8>,
    i: int,
    data: Seq<u8>,
)
    requires
        direction.valid(),
        direction.init,
        passed.len() + later.len() <= TRACKER_BUFFER_LEN,
        direction.seq + passed.len() + later.len() <= u32::MAX,
        0 <= i,
        i + data.len() <= passed.len(),
    ensures
        ({
            let after = direction.risen(passed).risen(later);
            let start = crate::util::seq_plus(direction.seq, i);
            &&& after.rewritten(start, data) == passed.subrange(i, i + data.len())
            &&& after.retransmitted(start, data.len() as int) == data.len()
            &&& after.new_data_len(start, data.len() as int) == 0
        }),
{
    let after = direction.risen(passed).risen(later);
    let start = crate::util::seq_plus(direction.seq, i);
    assert(after.back(start) == passed.len() - i + later.len());
    assert(after.rewritten(start, data) =~= passed.subrange(i, i + data.len()));
}

/// What holds of the packets on one side holds of those on the other, if they are the same.
pub proof fn lemma_same_packets(a: Seq<PacketView>, b: Seq<PacketView>, i: int) -> (j: int)
    requires
        bag(a) == bag(b),
        0 <= i < b.len(),
    ensures
        0 <= j < a.len(),
        shape(a[j]) == shape(b[i]),
{
    broadcast use vstd::seq_lib::group_to_multiset_ensures;

    assert(shapes(b)[i] == shape(b[i]));
    assert(shapes(b).contains(shape(b[i])));
    assert(bag(b).count(shape(b[i])) > 0);
    assert(shapes(a).contains(shape(b[i])));
    choose|j: int| 0 <= j < a.len() && shapes(a)[j] == shape(b[i])
}

/// A verdict gives its packet back.
pub proof fn lemma_returned(verdicts: Seq<VerdictView>, i: int, packet: PacketView) -> (j: int)
    requires
        0 <= i < verdicts.len(),
        verdicts[i] == VerdictView::Accept(packet) || verdicts[i] == VerdictView::Drop(packet),
    ensures
        0 <= j < returned(verdicts).len(),
        returned(verdicts)[j] == packet,
    decreases verdicts.len(),
{
    let n = returned(verdicts.drop_last()).len() as int;
    if i == verdicts.len() - 1 {
        n
    } else {
        lemma_returned(verdicts.drop_last(), i, packet)
    }
}

} // verus!
