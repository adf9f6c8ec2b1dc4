//! What holds of one direction of a connection, byte by byte and number by number.
use vstd::prelude::*;

use crate::packet::PacketView;
use crate::tcp::SessionView;
use crate::tcp_tracker::{TrackerView, TrackerWindInput};

verus! {

/// What a packet is to the stream that it arrives in, by its flags and its numbers: another
/// connection, if it is a SYN other than the one that opened the stream; else a reset, if it has
/// that bit; early, if it is no reset and its data starts up to 65536 behind what comes next; and
/// of its data the part before what comes next has passed, and the rest is new, unless it starts
/// early or too far back.
pub proof fn law_place_in_the_stream(
    direction: TrackerView,
    flags: u8,
    seq: u32,
    n: int,
    start: int,
    back: int,
)
    requires
        direction.valid(),
        0 <= n <= 65536,
        start == if flags & 2 == 0 {
            seq as int
        } else {
            (seq + 1) % 0x1_0000_0000
        },
        back == if direction.init {
            direction.seq - start
        } else {
            0
        },
    ensures
        ({
            let input = direction.plunged(flags, seq, n);
            let result = input.result;
            &&& input.start_seq == start
            &&& input.syn_seq == if flags & 2 == 0 { None } else { Some(seq) }
            &&& result.new_connection <==> flags & 2 != 0 && direction.init && direction.syn_seq
                != Some(seq)
            &&& result.closing <==> flags & 4 != 0 && !result.new_connection
            &&& result.is_future <==> flags & 4 == 0 && n > 0 && -65536 <= back <= -1
                && !result.new_connection
            &&& result.new_connection ==> result.retransmitted == 0 && result.new_data_len == 0
            &&& back < 0 || back > 65536 ==> result.retransmitted == 0 && result.new_data_len == 0
            &&& !result.new_connection && 0 <= back <= 65536 ==> {
                &&& result.retransmitted + result.new_data_len == n
                &&& n <= back ==> result.retransmitted == n
                &&& n >= back ==> result.retransmitted == back
            }
        }),
{
}

/// A byte of a packet is what passed with its number, where the stream remembers that, and is left
/// alone elsewhere.
pub proof fn law_passed_bytes_are_restored(
    direction: TrackerView,
    flags: u8,
    seq: u32,
    data: Seq<u8>,
    start: int,
    back: int,
    place: int,
)
    requires
        direction.valid(),
        start == if flags & 2 == 0 {
            seq as int
        } else {
            (seq + 1) % 0x1_0000_0000
        },
        back == if direction.init {
            direction.seq - start
        } else {
            0
        },
        0 <= place < data.len(),
    ensures
        ({
            let out = direction.plunged_data(flags, seq, data);
            let other = flags & 2 != 0 && direction.init && direction.syn_seq != Some(seq);
            &&& out.len() == data.len()
            &&& out[place] == if !other && place < back <= 65536 && back - place
                <= direction.seen {
                direction.past[65536 - (back - place)]
            } else {
                data[place]
            }
        }),
{
}

/// A packet that is early, or opens another connection, leaves the stream as it is and has nothing
/// to add or to take back. Any other opens the stream if nothing has, tells where the stream stood,
/// and adds its new data.
pub proof fn law_winding_in(direction: TrackerView, input: TrackerWindInput)
    ensures
        ({
            let after = direction.wound(input);
            let rise = crate::tcp_tracker::rise_input_of(input);
            let rewind = direction.rewind_input_of(input);
            if input.result.is_future || input.result.new_connection {
                &&& after == direction
                &&& rise is None
                &&& rewind is None
            } else {
                &&& after.init
                &&& after.seq == if direction.init { direction.seq } else { input.start_seq }
                &&& after.syn_seq == if direction.init { direction.syn_seq } else { input.syn_seq }
                &&& after.past == direction.past
                &&& after.seen == direction.seen
                &&& after.queue == direction.queue
                &&& rise is None <==> input.result.new_data_len == 0
                &&& rise matches Some(rise) ==> rise.new_data_len == input.result.new_data_len
                &&& rewind matches Some(rewind)
                &&& rewind.init == direction.init
                &&& rewind.seq == direction.seq
                &&& rewind.syn_seq == direction.syn_seq
            }
        }),
{
}

/// Data that is appended moves the stream on by its length, is remembered as its last bytes, and
/// pushes out as many of the first; nothing else changes.
pub proof fn law_rising(direction: TrackerView, data: Seq<u8>, i: int)
    requires
        direction.valid(),
        data.len() <= 65536,
        0 <= i < 65536,
    ensures
        ({
            let after = direction.risen(data);
            let n = data.len() as int;
            &&& after.seq == (direction.seq + n) % 0x1_0000_0000
            &&& after.past.len() == 65536
            &&& after.past[i] == if i + n < 65536 {
                direction.past[i + n]
            } else {
                data[i + n - 65536]
            }
            &&& after.seen == if direction.seen + n < 65536 { direction.seen + n } else { 65536 }
            &&& after.init == direction.init
            &&& after.syn_seq == direction.syn_seq
            &&& after.queue == direction.queue
        }),
{
}

/// Where nothing has passed, nothing is remembered and nothing waits, and a first packet opens the
/// stream whatever its number is.
pub proof fn law_fresh_direction(flags: u8, seq: u32, n: int, i: int)
    requires
        0 <= n <= 65536,
        0 <= i < 65536,
    ensures
        ({
            let fresh = TrackerView::fresh();
            let result = fresh.plunged(flags, seq, n).result;
            &&& fresh.valid()
            &&& !fresh.init
            &&& fresh.syn_seq is None
            &&& fresh.seq == 0
            &&& fresh.past.len() == 65536
            &&& fresh.past[i] == 0
            &&& fresh.seen == 0
            &&& fresh.queue.len() == 0
            &&& result.retransmitted == 0
            &&& result.new_data_len == n
            &&& !result.is_future
            &&& !result.new_connection
        }),
{
}

/// The number of the first data byte of a waiting packet.
spec fn starts_at(packet: PacketView, start: int) -> bool {
    let segment = packet.segment;
    let seq = segment[4] * 0x100_0000 + segment[5] * 0x1_0000 + segment[6] * 0x100 + segment[7];
    start == if segment[13] & 2 == 0 {
        seq
    } else {
        (seq + 1) % 0x1_0000_0000
    }
}

proof fn lemma_starts_at(packet: PacketView, start: int)
    requires
        starts_at(packet, start),
    ensures
        crate::tcp_tracker::start_of(packet.segment) == start,
{
}

/// The first packet that is not early is the first to be let go; if there is none, all stay.
proof fn lemma_first_ready(direction: TrackerView, total: int, i: int, k: int)
    requires
        0 <= i <= k <= direction.queue.len(),
        forall|j: int|
            i <= j < k ==> !direction.ready(#[trigger] direction.queue[j], total),
        k < direction.queue.len() ==> direction.ready(direction.queue[k], total),
    ensures
        direction.first_ready(i, total) == k,
    decreases k - i,
{
    if i < k {
        assert(!direction.ready(direction.queue[i], total));
        lemma_first_ready(direction, total, i + 1, k);
    }
}

/// While no packet has been let go that adds data, the next to be let go is the first in the queue
/// that is not early. It leaves with the bytes that passed in place, and adds those behind them.
/// Where all are early, none is let go.
pub proof fn law_next_to_be_let_go(direction: TrackerView, starts: Seq<int>, k: int)
    requires
        direction.valid(),
        starts.len() == direction.queue.len(),
        forall|j: int|
            0 <= j < starts.len() ==> {
                let segment = direction.queue[j].segment;
                let seq = segment[4] * 0x100_0000 + segment[5] * 0x1_0000 + segment[6] * 0x100
                    + segment[7];
                #[trigger] starts[j] == if segment[13] & 2 == 0 {
                    seq
                } else {
                    (seq + 1) % 0x1_0000_0000
                }
            },
        0 <= k <= direction.queue.len(),
        forall|j: int|
            0 <= j < k ==> direction.init && 1 <= #[trigger] starts[j] - direction.seq <= 65536,
        k < direction.queue.len() ==> !(direction.init && 1 <= starts[k] - direction.seq <= 65536),
    ensures
        k == direction.queue.len() ==> direction.releases(0).len() == 0 && direction.stays(0)
            == direction.queue,
        k < direction.queue.len() ==> {
            let packet = direction.queue[k];
            let n = packet.segment.len() - packet.segment[12] / 16 * 4;
            let back = if direction.init { direction.seq - starts[k] } else { 0 };
            let new = if back < 0 || back > 65536 {
                0
            } else if n <= back {
                0
            } else {
                n - back
            };
            let rest = TrackerView { queue: direction.queue.remove(k), ..direction };
            &&& direction.releases(0).len() > 0
            &&& direction.releases(0)[0].new_data_len == new
            &&& direction.releases(0)[0].packet.ident == packet.ident
            &&& direction.releases(0)[0].packet.net_header == packet.net_header
            &&& direction.releases(0)[0].packet.segment.len() == packet.segment.len()
            &&& forall|i: int|
                0 <= i < packet.segment.len() ==> {
                    let place = i - packet.segment[12] / 16 * 4;
                    #[trigger] direction.releases(0)[0].packet.segment[i] == if 0 <= place < back
                        <= 65536 && back - place <= direction.seen {
                        direction.past[65536 - (back - place)]
                    } else {
                        packet.segment[i]
                    }
                }
            &&& direction.releases(0).skip(1) == rest.releases(new)
            &&& direction.stays(0) == rest.stays(new)
        },
{
    assert forall|j: int| 0 <= j < k implies !direction.ready(#[trigger] direction.queue[j], 0) by {
        lemma_starts_at(direction.queue[j], starts[j]);
    }
    if k < direction.queue.len() {
        lemma_starts_at(direction.queue[k], starts[k]);
    }
    lemma_first_ready(direction, 0, 0, k);
    if k < direction.queue.len() {
        let packet = direction.queue[k];
        assert(crate::tcp_tracker::is_segment(packet.segment));
        let release = direction.release_of(packet, 0);
        let rest = direction.without(k);
        assert(direction.releases(0) == seq![release] + rest.releases(release.new_data_len));
        assert(direction.releases(0).skip(1) =~= rest.releases(release.new_data_len));
    }
}

/// Behind a packet that is let go with data, `total` bytes in all, only one is let go that starts
/// right behind them, and only while no more than 65536 bytes are added at once; of several the
/// first in the queue. It leaves as it is, and adds all of its data. Where there is none, the others
/// stay.
pub proof fn law_next_to_be_let_go_behind_data(
    direction: TrackerView,
    total: int,
    starts: Seq<int>,
    k: int,
)
    requires
        direction.valid(),
        0 < total,
        starts.len() == direction.queue.len(),
        forall|j: int|
            0 <= j < starts.len() ==> {
                let segment = direction.queue[j].segment;
                let seq = segment[4] * 0x100_0000 + segment[5] * 0x1_0000 + segment[6] * 0x100
                    + segment[7];
                #[trigger] starts[j] == if segment[13] & 2 == 0 {
                    seq
                } else {
                    (seq + 1) % 0x1_0000_0000
                }
            },
        0 <= k <= direction.queue.len(),
        forall|j: int|
            0 <= j < k ==> {
                let segment = direction.queue[j].segment;
                #[trigger] starts[j] != (direction.seq + total) % 0x1_0000_0000 || total
                    + segment.len() - segment[12] / 16 * 4 > 65536
            },
        k < direction.queue.len() ==> {
            let segment = direction.queue[k].segment;
            starts[k] == (direction.seq + total) % 0x1_0000_0000 && total + segment.len()
                - segment[12] / 16 * 4 <= 65536
        },
    ensures
        k == direction.queue.len() ==> direction.releases(total).len() == 0 && direction.stays(
            total,
        ) == direction.queue,
        k < direction.queue.len() ==> {
            let packet = direction.queue[k];
            let n = packet.segment.len() - packet.segment[12] / 16 * 4;
            let rest = TrackerView { queue: direction.queue.remove(k), ..direction };
            &&& direction.releases(total).len() > 0
            &&& direction.releases(total)[0].new_data_len == n
            &&& direction.releases(total)[0].packet == packet
            &&& direction.releases(total).skip(1) == rest.releases(total + n)
            &&& direction.stays(total) == rest.stays(total + n)
        },
{
    assert forall|j: int| 0 <= j < k implies !direction.ready(
        #[trigger] direction.queue[j],
        total,
    ) by {
        lemma_starts_at(direction.queue[j], starts[j]);
        assert(crate::tcp_tracker::is_segment(direction.queue[j].segment));
    }
    if k < direction.queue.len() {
        lemma_starts_at(direction.queue[k], starts[k]);
        assert(crate::tcp_tracker::is_segment(direction.queue[k].segment));
    }
    lemma_first_ready(direction, total, 0, k);
    if k < direction.queue.len() {
        let packet = direction.queue[k];
        let release = direction.release_of(packet, total);
        let rest = direction.without(k);
        assert(direction.releases(total) == seq![release] + rest.releases(
            total + release.new_data_len,
        ));
        assert(direction.releases(total).skip(1) =~= rest.releases(total + release.new_data_len));
    }
}

/// When packets are let go, what the others wait for is the data of those, in a row behind what had
/// passed.
pub proof fn law_released_direction(direction: TrackerView, parts: Seq<Seq<u8>>)
    ensures
        ({
            let after = direction.released(crate::tcp_tracker::joined(parts));
            let data = parts.flatten();
            &&& after.queue == direction.stays(0)
            &&& after.init == direction.init
            &&& after.syn_seq == direction.syn_seq
            &&& after.seq == (direction.seq + data.len()) % 0x1_0000_0000
            &&& after.past == direction.past.skip(data.len() as int) + data
            &&& after.seen == if direction.seen + data.len() < direction.past.len() {
                direction.seen + data.len()
            } else {
                direction.past.len() as int
            }
        }),
{
    lemma_joined_is_flat(parts);
}

/// Parts in a row.
pub proof fn lemma_joined_is_flat(parts: Seq<Seq<u8>>)
    ensures
        crate::tcp_tracker::joined(parts) == parts.flatten(),
    decreases parts.len(),
{
    parts.lemma_flatten_and_flatten_alt_are_equivalent();
    if parts.len() > 0 {
        lemma_joined_is_flat(parts.drop_last());
        parts.drop_last().lemma_flatten_and_flatten_alt_are_equivalent();
    }
}

/// The end that is seen first is the client, and stays the client; a packet is the client's if
/// both its address and its port are the client's, and the server's otherwise.
pub proof fn law_first_sender_is_the_client<NetAddr>(
    session: SessionView<NetAddr>,
    src_net: NetAddr,
    src_port: u16,
    segment: Seq<u8>,
)
    ensures
        ({
            let placed = session.placed(src_net, src_port);
            let is_client = !session.src_init || (session.src_net == src_net && session.src_port
                == src_port);
            &&& placed.src_init
            &&& session.src_init ==> placed == session
            &&& !session.src_init ==> placed.src_net == src_net && placed.src_port == src_port
            &&& placed.client == session.client
            &&& placed.server == session.server
            &&& placed.handshake_done == session.handshake_done
            &&& placed.created == session.created
            &&& session.plunged(src_net, src_port, segment).is_client == is_client
            &&& placed.plunged(src_net, src_port, segment).is_client == is_client
        }),
{
}

/// A packet is held against the direction of its sender alone, by the flags, the number and the
/// length of its data that its header gives; the header stays as it is.
pub proof fn law_packet_meets_its_direction<NetAddr>(
    session: SessionView<NetAddr>,
    src_net: NetAddr,
    src_port: u16,
    segment: Seq<u8>,
    direction: TrackerView,
    offset: int,
    seq: int,
)
    requires
        14 <= segment.len(),
        offset == segment[12] / 16 * 4,
        offset <= segment.len(),
        seq == segment[4] * 0x100_0000 + segment[5] * 0x1_0000 + segment[6] * 0x100 + segment[7],
        direction == if !session.src_init || (session.src_net == src_net && session.src_port
            == src_port) {
            session.client
        } else {
            session.server
        },
    ensures
        session.plunged(src_net, src_port, segment).tracker_wind_input == direction.plunged(
            segment[13],
            seq as u32,
            segment.len() - offset,
        ),
        session.plunged_segment(src_net, src_port, segment) == segment.take(offset)
            + direction.plunged_data(segment[13], seq as u32, segment.skip(offset)),
{
}

/// The directions of a connection are the client's and the server's, and setting one leaves
/// everything else alone.
pub proof fn law_two_directions<NetAddr>(
    session: SessionView<NetAddr>,
    is_client: bool,
    direction: TrackerView,
)
    ensures
        session.direction(true) == session.client,
        session.direction(false) == session.server,
        ({
            let after = session.with_direction(is_client, direction);
            &&& after.direction(is_client) == direction
            &&& after.direction(!is_client) == session.direction(!is_client)
            &&& after.src_net == session.src_net
            &&& after.src_port == session.src_port
            &&& after.src_init == session.src_init
            &&& after.handshake_done == session.handshake_done
            &&& after.created == session.created
        }),
{
}

/// Of a connection that has just been made up nothing is known: no end, no packet, no handshake.
pub proof fn law_fresh_session<NetAddr>(session: SessionView<NetAddr>)
    requires
        session.is_fresh(),
    ensures
        !session.src_init,
        session.src_port == 0,
        !session.handshake_done,
        !session.client.init && session.client.queue.len() == 0 && session.client.seen == 0,
        !session.server.init && session.server.queue.len() == 0 && session.server.seen == 0,
        session.client == TrackerView::fresh(),
        session.server == TrackerView::fresh(),
{
}

} // verus!
