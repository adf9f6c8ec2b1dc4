//! One direction of a TCP connection: what has passed, and what came too early.
use vstd::prelude::*;

use crate::deque::DequeSliceMut;
use crate::packet::{PacketView, TransportPacketParent};
use crate::tcp::SnarfTcpError;
use crate::tcp_util::{tcp_flags, tcp_header_len, tcp_seq, RST_MASK, SYN_MASK};
use crate::util::CircularSeqBuffer;

verus! {

/// How many bytes of the stream are remembered: as many as a packet can carry.
pub const TRACKER_BUFFER_LEN: usize = 65536;

/// How many packets may wait for the data before them.
pub const FUTURE_QUEUE_LIMIT: usize = 64;

/// Whether `segment` is long enough for its header, and the header for the fields that are read.
pub open spec fn is_segment(segment: Seq<u8>) -> bool {
    &&& 14 <= segment.len()
    &&& 14 <= crate::tcp_util::header_len_of(segment) <= segment.len()
}

/// The data of `segment`.
pub open spec fn data_of(segment: Seq<u8>) -> Seq<u8> {
    segment.skip(crate::tcp_util::header_len_of(segment))
}

/// The header of `segment`.
pub open spec fn header_of(segment: Seq<u8>) -> Seq<u8> {
    segment.take(crate::tcp_util::header_len_of(segment))
}

/// The sequence number of the first data byte, where `seq` is that of the segment: a SYN takes one.
pub open spec fn start_seq(flags: u8, seq: u32) -> u32 {
    if crate::tcp_util::has_flag(flags, SYN_MASK) {
        crate::util::seq_plus(seq, 1)
    } else {
        seq
    }
}

/// The sequence number of the first data byte of `segment`.
pub open spec fn start_of(segment: Seq<u8>) -> u32 {
    start_seq(segment[13], crate::tcp_util::seq_of(segment) as u32)
}

/// The smaller of two numbers.
pub open spec fn smaller(a: int, b: int) -> int {
    if a < b {
        a
    } else {
        b
    }
}

/// What a packet is to the stream that it arrives in.
#[derive(Clone, Copy, Debug)]
pub struct TcpTrackerPlungeResult {
    /// How many of its first data bytes lie before what comes next in the stream.
    pub retransmitted: usize,
    /// How many of its data bytes come next in the stream.
    pub new_data_len: usize,
    /// Whether data before it is still missing.
    pub is_future: bool,
    /// Whether it resets the connection.
    pub closing: bool,
    /// Whether it opens another connection between the same ends.
    pub new_connection: bool,
}

/// What a packet does to the stream that it arrives in.
#[derive(Clone, Copy, Debug)]
pub struct TrackerWindInput {
    pub result: TcpTrackerPlungeResult,
    /// The sequence number of its first data byte.
    pub start_seq: u32,
    /// The sequence number of the packet, if it is a SYN.
    pub syn_seq: Option<u32>,
}

/// The data that a packet adds to the stream.
#[derive(Clone, Copy, Debug)]
pub struct TcpTrackerRiseInput {
    pub new_data_len: usize,
}

/// Where a stream stood before a packet was wound in.
#[derive(Clone, Copy, Debug)]
pub struct TcpTrackerRewindInput {
    pub init: bool,
    pub seq: u32,
    pub syn_seq: Option<u32>,
}

/// The room for the data that a packet adds to the stream.
#[derive(Debug)]
pub struct TcpTrackerRiseResult<'a> {
    pub writable: DequeSliceMut<'a, u8>,
}

/// A packet that was held back and is let go, with the room for the data that it adds to the
/// stream.
#[derive(Debug)]
pub struct FutureVerdict<'a, RF> {
    pub rf: RF,
    pub header_len: usize,
    pub new_data_len: usize,
    pub writable: DequeSliceMut<'a, u8>,
}

/// A packet that is held back.
#[derive(Debug)]
pub struct FuturePacket<RF> {
    pub rf: RF,
    pub start_seq: u32,
    pub header_len: usize,
    pub data_len: usize,
}

impl<RF: TransportPacketParent> FuturePacket<RF> {
    /// The numbers beside the packet are those of its header.
    pub open spec fn wf(&self) -> bool {
        let segment = self.rf.segment();
        &&& self.rf.splittable()
        &&& is_segment(segment)
        &&& self.start_seq == start_of(segment)
        &&& self.header_len == crate::tcp_util::header_len_of(segment)
        &&& self.data_len == data_of(segment).len()
        &&& 0 < self.data_len <= TRACKER_BUFFER_LEN
    }
}

/// One direction of a connection as it is seen from outside.
#[verifier::ext_equal]
pub struct TrackerView {
    /// Whether a packet has been seen.
    pub init: bool,
    /// The sequence number of the SYN that opened the stream, if it was seen.
    pub syn_seq: Option<u32>,
    /// The sequence number that comes next.
    pub seq: u32,
    /// The last bytes before it.
    pub past: Seq<u8>,
    /// How many of them belong to the stream.
    pub seen: int,
    /// The packets that are held back.
    pub queue: Seq<PacketView>,
}

/// A packet that is let go, with its retransmitted bytes in place, and the number of bytes that it
/// adds to the stream.
pub struct Release {
    pub packet: PacketView,
    pub new_data_len: int,
}

impl TrackerView {
    /// Nothing has been seen yet.
    pub open spec fn fresh() -> TrackerView {
        TrackerView {
            init: false,
            syn_seq: None,
            seq: 0,
            past: Seq::new(TRACKER_BUFFER_LEN as nat, |i: int| 0u8),
            seen: 0,
            queue: seq![],
        }
    }

    /// Whether the direction can have come about.
    pub open spec fn valid(self) -> bool {
        &&& self.past.len() == TRACKER_BUFFER_LEN
        &&& 0 <= self.seen <= TRACKER_BUFFER_LEN
        &&& !self.init ==> self.seen == 0 && self.queue.len() == 0
        &&& self.queue.len() <= FUTURE_QUEUE_LIMIT
        &&& forall|i: int|
            0 <= i < self.queue.len() ==> is_segment((#[trigger] self.queue[i]).segment) && 0
                < data_of(self.queue[i].segment).len() <= TRACKER_BUFFER_LEN
    }

    /// How far the sequence number `start` lies back. The first packet starts the stream.
    pub open spec fn back(self, start: u32) -> int {
        if self.init {
            self.seq - start
        } else {
            0
        }
    }

    /// Whether bytes from `start` on come next, or lie back by no more than can be remembered.
    pub open spec fn tracks(self, start: u32) -> bool {
        0 <= self.back(start) <= self.past.len()
    }

    /// How many bytes from `start` on came before those that are remembered.
    pub open spec fn forgotten(self, start: u32) -> int {
        if self.back(start) > self.seen {
            self.back(start) - self.seen
        } else {
            0
        }
    }

    /// Whether bytes from `start` on come later.
    pub open spec fn is_ahead(self, start: u32) -> bool {
        1 <= -self.back(start) <= self.past.len()
    }

    /// How many of `n` bytes from `start` on lie before what comes next.
    pub open spec fn retransmitted(self, start: u32, n: int) -> int {
        if self.tracks(start) {
            smaller(n, self.back(start))
        } else {
            0
        }
    }

    /// How many of `n` bytes from `start` on come next in the stream.
    pub open spec fn new_data_len(self, start: u32, n: int) -> int {
        if self.tracks(start) {
            n - self.retransmitted(start, n)
        } else {
            0
        }
    }

    /// `data` from `start` on, where the bytes that are remembered are those that passed.
    pub open spec fn rewritten(self, start: u32, data: Seq<u8>) -> Seq<u8> {
        let n = self.retransmitted(start, data.len() as int);
        let forgotten = self.forgotten(start);
        let from = self.past.len() - self.back(start);
        if forgotten < n {
            data.take(forgotten) + self.past.subrange(from + forgotten, from + n) + data.skip(n)
        } else {
            data
        }
    }

    /// Whether a packet opens another connection: a SYN that is not the one that opened this.
    pub open spec fn is_new_connection(self, flags: u8, seq: u32) -> bool {
        &&& crate::tcp_util::has_flag(flags, SYN_MASK)
        &&& self.init
        &&& self.syn_seq != Some(seq)
    }

    /// What a packet with these flags, this sequence number and `n` bytes of data does here.
    pub open spec fn plunged(self, flags: u8, seq: u32, n: int) -> TrackerWindInput {
        let start = start_seq(flags, seq);
        let rst = crate::tcp_util::has_flag(flags, RST_MASK);
        let same = !self.is_new_connection(flags, seq);
        TrackerWindInput {
            result: TcpTrackerPlungeResult {
                retransmitted: if same { self.retransmitted(start, n) as usize } else { 0 },
                new_data_len: if same { self.new_data_len(start, n) as usize } else { 0 },
                is_future: same && !rst && n > 0 && self.is_ahead(start),
                closing: same && rst,
                new_connection: !same,
            },
            start_seq: start,
            syn_seq: if crate::tcp_util::has_flag(flags, SYN_MASK) { Some(seq) } else { None },
        }
    }

    /// The data of that packet, where the bytes that are remembered are those that passed.
    pub open spec fn plunged_data(self, flags: u8, seq: u32, data: Seq<u8>) -> Seq<u8> {
        if self.is_new_connection(flags, seq) {
            data
        } else {
            self.rewritten(start_seq(flags, seq), data)
        }
    }

    /// Whether what was found out about a packet changes the stream.
    pub open spec fn winds(self, input: TrackerWindInput) -> bool {
        !input.result.is_future && !input.result.new_connection
    }

    /// The stream after a packet has been wound in.
    pub open spec fn wound(self, input: TrackerWindInput) -> TrackerView {
        if self.winds(input) {
            TrackerView {
                init: true,
                syn_seq: if self.init { self.syn_seq } else { input.syn_seq },
                seq: if self.init { self.seq } else { input.start_seq },
                ..self
            }
        } else {
            self
        }
    }

    /// Where the stream stood before the packet, if the packet belongs to it.
    pub open spec fn rewind_input_of(self, input: TrackerWindInput) -> Option<
        TcpTrackerRewindInput,
    > {
        if self.winds(input) {
            Some(TcpTrackerRewindInput { init: self.init, seq: self.seq, syn_seq: self.syn_seq })
        } else {
            None
        }
    }

    /// The stream after `data` has been appended to it.
    pub open spec fn risen(self, data: Seq<u8>) -> TrackerView {
        TrackerView {
            seq: crate::util::seq_plus(self.seq, data.len() as int),
            past: self.past.skip(data.len() as int) + data,
            seen: smaller(self.seen + data.len(), self.past.len() as int),
            ..self
        }
    }

    /// Whether a packet that is held back can be let go after `total` bytes that are about to be
    /// appended: at first any that does not come later, then only the one that comes next.
    pub open spec fn ready(self, packet: PacketView, total: int) -> bool {
        let start = start_of(packet.segment);
        if total == 0 {
            !self.is_ahead(start)
        } else {
            &&& start == crate::util::seq_plus(self.seq, total)
            &&& total + data_of(packet.segment).len() <= self.past.len()
        }
    }

    /// The first packet from number `i` on that can be let go, or the number of packets.
    pub open spec fn first_ready(self, i: int, total: int) -> int
        decreases self.queue.len() - i,
    {
        if i < 0 || i >= self.queue.len() {
            self.queue.len() as int
        } else if self.ready(self.queue[i], total) {
            i
        } else {
            self.first_ready(i + 1, total)
        }
    }

    /// How `packet` is let go after `total` bytes that are about to be appended.
    pub open spec fn release_of(self, packet: PacketView, total: int) -> Release {
        let start = start_of(packet.segment);
        let data = data_of(packet.segment);
        if total == 0 {
            Release {
                packet: PacketView {
                    segment: header_of(packet.segment) + self.rewritten(start, data),
                    ..packet
                },
                new_data_len: self.new_data_len(start, data.len() as int),
            }
        } else {
            Release { packet, new_data_len: data.len() as int }
        }
    }

    /// The packets without number `i`.
    pub open spec fn without(self, i: int) -> TrackerView {
        TrackerView { queue: self.queue.remove(i), ..self }
    }

    /// The packets that are let go, in their order, after `total` bytes that are about to be
    /// appended.
    pub open spec fn releases(self, total: int) -> Seq<Release>
        decreases self.queue.len(),
    {
        let i = self.first_ready(0, total);
        if 0 <= i < self.queue.len() {
            let release = self.release_of(self.queue[i], total);
            seq![release] + self.without(i).releases(total + release.new_data_len)
        } else {
            seq![]
        }
    }

    /// The packets that stay, after `total` bytes that are about to be appended.
    pub open spec fn stays(self, total: int) -> Seq<PacketView>
        decreases self.queue.len(),
    {
        let i = self.first_ready(0, total);
        if 0 <= i < self.queue.len() {
            let release = self.release_of(self.queue[i], total);
            self.without(i).stays(total + release.new_data_len)
        } else {
            self.queue
        }
    }

    /// The stream after the packets that can be let go have left, and `data` has been appended.
    pub open spec fn released(self, data: Seq<u8>) -> TrackerView {
        TrackerView {
            queue: self.stays(0),
            ..self.risen(data)
        }
    }
}

/// The data that a packet adds to the stream, if any.
pub open spec fn rise_input_of(input: TrackerWindInput) -> Option<TcpTrackerRiseInput> {
    if input.result.is_future || input.result.new_connection || input.result.new_data_len == 0 {
        None
    } else {
        Some(TcpTrackerRiseInput { new_data_len: input.result.new_data_len })
    }
}

/// Each packet that is held back is let go or stays.
pub proof fn lemma_release_lens(direction: TrackerView, total: int)
    ensures
        direction.releases(total).len() + direction.stays(total).len() == direction.queue.len(),
    decreases direction.queue.len(),
{
    let i = direction.first_ready(0, total);
    if 0 <= i < direction.queue.len() {
        let release = direction.release_of(direction.queue[i], total);
        lemma_release_lens(direction.without(i), total + release.new_data_len);
    }
}

/// Where no packet is let go, nothing changes.
pub proof fn lemma_nothing_released(direction: TrackerView)
    requires
        direction.valid(),
        direction.releases(0).len() == 0,
    ensures
        direction.released(seq![]) == direction,
{
    let i = direction.first_ready(0, 0);
    assert(direction.stays(0) == direction.queue) by {
        if 0 <= i < direction.queue.len() {
            assert(direction.releases(0).len() > 0);
        }
    }
    assert(direction.released(seq![]) =~= direction);
}

/// The bytes that packets which are let go add to the stream.
pub open spec fn release_total(releases: Seq<Release>) -> int
    decreases releases.len(),
{
    if releases.len() == 0 {
        0
    } else {
        release_total(releases.drop_last()) + releases.last().new_data_len
    }
}

/// The bytes of `parts` in a row.
pub open spec fn joined(parts: Seq<Seq<u8>>) -> Seq<u8>
    decreases parts.len(),
{
    if parts.len() == 0 {
        seq![]
    } else {
        joined(parts.drop_last()) + parts.last()
    }
}

/// The first parts of `pieces`.
pub open spec fn firsts(pieces: Seq<(Seq<u8>, Seq<u8>)>) -> Seq<Seq<u8>> {
    pieces.map_values(|p: (Seq<u8>, Seq<u8>)| p.0)
}

/// The second parts of `pieces`.
pub open spec fn seconds(pieces: Seq<(Seq<u8>, Seq<u8>)>) -> Seq<Seq<u8>> {
    pieces.map_values(|p: (Seq<u8>, Seq<u8>)| p.1)
}

/// Each of `pieces` as a whole.
pub open spec fn wholes(pieces: Seq<(Seq<u8>, Seq<u8>)>) -> Seq<Seq<u8>> {
    pieces.map_values(|p: (Seq<u8>, Seq<u8>)| p.0 + p.1)
}

/// Whether the parts of `pieces` have these lengths.
pub open spec fn kept(pieces: Seq<(Seq<u8>, Seq<u8>)>, lens: Seq<(int, int)>) -> bool {
    &&& pieces.len() == lens.len()
    &&& forall|i: int|
        0 <= i < pieces.len() ==> (#[trigger] pieces[i]).0.len() == lens[i].0 && pieces[i].1.len()
            == lens[i].1
}

/// One more piece comes last.
proof fn lemma_piece_joined(
    pieces: Seq<(Seq<u8>, Seq<u8>)>,
    lens: Seq<(int, int)>,
    piece: (Seq<u8>, Seq<u8>),
    len: (int, int),
)
    requires
        pieces.len() == lens.len(),
    ensures
        joined(firsts(pieces.push(piece))) == joined(firsts(pieces)) + piece.0,
        joined(seconds(pieces.push(piece))) == joined(seconds(pieces)) + piece.1,
        joined(wholes(pieces.push(piece))) == joined(wholes(pieces)) + (piece.0 + piece.1),
        kept(pieces.push(piece), lens.push(len)) ==> kept(pieces, lens) && piece.0.len() == len.0
            && piece.1.len() == len.1,
{
    assert(firsts(pieces.push(piece)).drop_last() =~= firsts(pieces));
    assert(seconds(pieces.push(piece)).drop_last() =~= seconds(pieces));
    assert(wholes(pieces.push(piece)).drop_last() =~= wholes(pieces));
    let more = pieces.push(piece);
    if kept(more, lens.push(len)) {
        assert(more[pieces.len() as int] == piece);
        assert forall|i: int| 0 <= i < pieces.len() implies (#[trigger] pieces[i]).0.len()
            == lens[i].0 && pieces[i].1.len() == lens[i].1 by {
            assert(more[i] == pieces[i]);
        }
    }
}

/// The bytes that come after the first `n` packets.
proof fn lemma_release_total_next(releases: Seq<Release>, n: int)
    requires
        0 <= n < releases.len(),
        forall|i: int| 0 <= i < releases.len() ==> 0 <= (#[trigger] releases[i]).new_data_len,
    ensures
        release_total(releases.take(n + 1)) == release_total(releases.take(n))
            + releases[n].new_data_len,
        release_total(releases.take(n + 1)) <= release_total(releases),
    decreases releases.len() - n,
{
    assert(releases.take(n + 1).drop_last() =~= releases.take(n));
    if n + 1 < releases.len() {
        lemma_release_total_next(releases, n + 1);
    } else {
        assert(releases.take(n + 1) =~= releases);
    }
}

/// Other data of the same length leaves the header of a segment as it is.
pub proof fn lemma_data_replaced(segment: Seq<u8>, data: Seq<u8>)
    requires
        is_segment(segment),
        data.len() == data_of(segment).len(),
    ensures
        ({
            let replaced = header_of(segment) + data;
            &&& is_segment(replaced)
            &&& replaced.len() == segment.len()
            &&& crate::tcp_util::header_len_of(replaced) == crate::tcp_util::header_len_of(segment)
            &&& header_of(replaced) == header_of(segment)
            &&& data_of(replaced) == data
            &&& start_of(replaced) == start_of(segment)
            &&& crate::tcp_util::seq_of(replaced) == crate::tcp_util::seq_of(segment)
        }),
{
    let replaced = header_of(segment) + data;
    assert(forall|i: int| 0 <= i < 14 ==> replaced[i] == segment[i]);
    assert(header_of(replaced) =~= header_of(segment));
    assert(data_of(replaced) =~= data);
}

/// A packet that can be let go, and the number of bytes that it adds to the stream.
struct ReadyPacket<RF> {
    rf: RF,
    header_len: usize,
    new_data_len: usize,
}

impl<RF: TransportPacketParent> ReadyPacket<RF> {
    spec fn wf(&self) -> bool {
        &&& self.rf.splittable()
        &&& is_segment(self.rf.segment())
        &&& self.header_len == crate::tcp_util::header_len_of(self.rf.segment())
        &&& self.new_data_len <= data_of(self.rf.segment()).len() <= TRACKER_BUFFER_LEN
    }

    spec fn release(&self) -> Release {
        Release {
            packet: crate::packet::packet_view(self.rf),
            new_data_len: self.new_data_len as int,
        }
    }
}

/// One direction of a connection.
#[derive(Debug)]
pub struct TcpPeerTracker<RF: TransportPacketParent> {
    pub buffer: CircularSeqBuffer,
    pub init: bool,
    pub syn_seq: Option<u32>,
    pub seen: usize,
    pub future_queue: Vec<FuturePacket<RF>>,
}

impl<RF: TransportPacketParent> TcpPeerTracker<RF> {
    /// The packets that are held back.
    pub open spec fn queue(&self) -> Seq<PacketView> {
        self.future_queue@.map_values(|p: FuturePacket<RF>| crate::packet::packet_view(p.rf))
    }

    /// The direction as it is seen from outside.
    pub open spec fn view(&self) -> TrackerView {
        TrackerView {
            init: self.init,
            syn_seq: self.syn_seq,
            seq: self.buffer.seq,
            past: self.buffer.recent(),
            seen: self.seen as int,
            queue: self.queue(),
        }
    }

    pub open spec fn wf(&self) -> bool {
        &&& self.buffer.wf()
        &&& self.buffer.buffer@.len() == TRACKER_BUFFER_LEN
        &&& self.seen <= TRACKER_BUFFER_LEN
        &&& !self.init ==> self.seen == 0 && self.future_queue@.len() == 0
        &&& self.future_queue@.len() <= FUTURE_QUEUE_LIMIT
        &&& forall|i: int|
            0 <= i < self.future_queue@.len() ==> (#[trigger] self.future_queue@[i]).wf()
    }

    /// What is seen from outside can have come about.
    pub proof fn lemma_valid(&self)
        requires
            self.wf(),
        ensures
            self@.valid(),
    {
        assert forall|i: int| 0 <= i < self@.queue.len() implies is_segment(
            (#[trigger] self@.queue[i]).segment,
        ) && 0 < data_of(self@.queue[i].segment).len() <= TRACKER_BUFFER_LEN by {
            assert(self.future_queue@[i].wf());
        }
    }

    pub fn new() -> (r: Self)
        ensures
            r.wf(),
            r@ == TrackerView::fresh(),
    {
        let buffer = CircularSeqBuffer::new(TRACKER_BUFFER_LEN);
        let tracker = TcpPeerTracker {
            buffer,
            init: false,
            syn_seq: None,
            seen: 0,
            future_queue: Vec::new(),
        };
        assert(tracker@.past =~= TrackerView::fresh().past);
        assert(tracker@.queue =~= TrackerView::fresh().queue);
        tracker
    }

    /// Finds out what a packet does to the stream, and puts the bytes that are remembered in the
    /// place of those it has. The stream stays as it is.
    pub fn plunge(&mut self, flags: u8, seq: u32, data: &mut [u8]) -> (r: Result<
        TrackerWindInput,
        SnarfTcpError,
    >)
        requires
            old(self).wf(),
        ensures
            *final(self) == *old(self),
            old(data)@.len() > TRACKER_BUFFER_LEN ==> r == Err::<TrackerWindInput, _>(
                SnarfTcpError::PacketTooBigError,
            ) && final(data)@ == old(data)@,
            old(data)@.len() <= TRACKER_BUFFER_LEN ==> r == Ok::<_, SnarfTcpError>(
                old(self)@.plunged(flags, seq, old(data)@.len() as int),
            ) && final(data)@ == old(self)@.plunged_data(flags, seq, old(data)@),
    {
        let n: usize = data.len();
        if n > self.buffer.len() {
            return Err(SnarfTcpError::PacketTooBigError);
        }
        let ghost before = *self;
        let ghost arrived = data@;
        let syn: bool = flags & SYN_MASK != 0;
        let rst: bool = flags & RST_MASK != 0;
        let start: u32 = if syn { seq.wrapping_add(1) } else { seq };
        let syn_seq: Option<u32> = if syn { Some(seq) } else { None };
        let same: bool = !syn || !self.init || match self.syn_seq {
            Some(first) => first == seq,
            None => false,
        };
        assert(start == start_seq(flags, seq));
        assert(same == !self@.is_new_connection(flags, seq));
        if !same {
            let result = TcpTrackerPlungeResult {
                retransmitted: 0,
                new_data_len: 0,
                is_future: false,
                closing: false,
                new_connection: true,
            };
            return Ok(TrackerWindInput { result, start_seq: start, syn_seq });
        }
        let (known, new_data_len) = self.classify(start, n);
        let retransmitted: usize = if known { n - new_data_len } else { 0 };
        if self.init {
            self.restore(start, retransmitted, data);
        } else {
            assert(arrived =~= before@.rewritten(start, arrived));
        }
        let is_future: bool = !rst && n > 0 && self.init && self.buffer.seq_is_future(start);
        let result = TcpTrackerPlungeResult {
            retransmitted,
            new_data_len,
            is_future,
            closing: rst,
            new_connection: false,
        };
        Ok(TrackerWindInput { result, start_seq: start, syn_seq })
    }

    /// Whether `n` bytes from `start` on come next or lie back by no more than can be remembered,
    /// and how many of them come next.
    fn classify(&mut self, start: u32, n: usize) -> (r: (bool, usize))
        requires
            old(self).wf(),
            n <= TRACKER_BUFFER_LEN,
        ensures
            *final(self) == *old(self),
            r.0 == old(self)@.tracks(start),
            r.1 == old(self)@.new_data_len(start, n as int),
    {
        if !self.init {
            return (true, n);
        }
        if !self.buffer.seq_in_buf(start) {
            return (false, 0);
        }
        let new_data_len: i64 = self.buffer.get_new(start, n);
        (true, new_data_len as usize)
    }

    /// Puts those of the first `retransmitted` bytes of `data`, which have passed from `start` on, in
    /// place that are remembered.
    fn restore(&self, start: u32, retransmitted: usize, data: &mut [u8])
        requires
            self.wf(),
            self.init,
            retransmitted == self@.retransmitted(start, old(data)@.len() as int),
        ensures
            final(data)@ == self@.rewritten(start, old(data)@),
    {
        let ghost arrived = data@;
        if retransmitted > 0 {
            let back: usize = (self.buffer.seq - start) as usize;
            let forgotten: usize = if back > self.seen { back - self.seen } else { 0 };
            if forgotten < retransmitted {
                let from: u32 = start + forgotten as u32;
                let (passed, _rest) = data.split_at_mut(retransmitted);
                let (_forgotten, remembered) = passed.split_at_mut(forgotten);
                proof {
                    assert(self.buffer.distance_back(from) == back - forgotten);
                    crate::util::law_window_is_stream(
                        self.buffer,
                        from,
                        retransmitted - forgotten,
                    );
                }
                self.buffer.write_from_buffer_to_slice(remembered, from);
            }
        }
        assert(data@ =~= self@.rewritten(start, arrived));
    }

    /// Takes up what a packet does to the stream, but for its data. Says how much data it adds, if
    /// any, and where the stream stood, if the packet belongs to it.
    pub fn wind(&mut self, input: TrackerWindInput) -> (r: Result<
        (Option<TcpTrackerRiseInput>, Option<TcpTrackerRewindInput>),
        SnarfTcpError,
    >)
        requires
            old(self).wf(),
        ensures
            final(self).wf(),
            input.result.new_data_len > TRACKER_BUFFER_LEN ==> r == Err::<
                (Option<TcpTrackerRiseInput>, Option<TcpTrackerRewindInput>),
                _,
            >(SnarfTcpError::PacketTooBigError) && *final(self) == *old(self),
            input.result.new_data_len <= TRACKER_BUFFER_LEN ==> r == Ok::<_, SnarfTcpError>(
                (rise_input_of(input), old(self)@.rewind_input_of(input)),
            ) && final(self)@ == old(self)@.wound(input),
    {
        let new_data_len: usize = input.result.new_data_len;
        if new_data_len > self.buffer.len() {
            return Err(SnarfTcpError::PacketTooBigError);
        }
        if input.result.is_future || input.result.new_connection {
            return Ok((None, None));
        }
        let rewind_input = TcpTrackerRewindInput {
            init: self.init,
            seq: self.buffer.seq,
            syn_seq: self.syn_seq,
        };
        if !self.init {
            self.init = true;
            self.syn_seq = input.syn_seq;
            self.buffer.set_seq(input.start_seq);
        }
        let rise_input = if new_data_len > 0 {
            Some(TcpTrackerRiseInput { new_data_len })
        } else {
            None
        };
        Ok((rise_input, Some(rewind_input)))
    }

    /// Moves the stream on by the data that a packet adds, and hands out the room for it.
    pub fn rise<'a>(&'a mut self, rise_input: TcpTrackerRiseInput) -> (r: Result<
        TcpTrackerRiseResult<'a>,
        SnarfTcpError,
    >)
        requires
            old(self).wf(),
            old(self).init,
        ensures
            rise_input.new_data_len > TRACKER_BUFFER_LEN <==> r is Err,
            r matches Err(e) ==> e is PacketTooBigError && *final(self) == *old(self),
            r matches Ok(room) ==> {
                &&& room.writable@.len() == rise_input.new_data_len
                &&& forall|data: Seq<u8>|
                    #![trigger old(self)@.risen(data)]
                    data == final(room.writable.front)@ + final(room.writable.back)@
                        && final(room.writable.front)@.len() == room.writable.front@.len()
                        && final(room.writable.back)@.len() == room.writable.back@.len()
                        ==> final(self)@ == old(self)@.risen(data) && final(self).wf()
            },
    {
        let n: usize = rise_input.new_data_len;
        if n > self.buffer.len() {
            return Err(SnarfTcpError::PacketTooBigError);
        }
        let ghost before = *self;
        let ghost after = *final(self);
        if n > self.buffer.len() - self.seen {
            self.seen = self.buffer.len();
        } else {
            self.seen = self.seen + n;
        }
        let (writable, rest) = self.buffer.update_and_return_split_ref(n);
        proof {
            let room = before.buffer.room_before_wrap(n as int);
            let kept_front = rest.front@;
            let kept_back = rest.back@;
            assert(writable@.len() == n);
            assert(before.buffer.buffer@.skip(before.buffer.end as int).skip(room) =~= kept_front);
            assert(before.buffer.buffer@.take(before.buffer.end as int).skip(n - room)
                =~= kept_back);
            assert forall|data: Seq<u8>|
                #![trigger before@.risen(data)]
                data == final(writable.front)@ + final(writable.back)@
                    && final(writable.front)@.len() == writable.front@.len()
                    && final(writable.back)@.len() == writable.back@.len() implies after@
                == before@.risen(data) && after.wf() by {
                assert(data.take(room) =~= final(writable.front)@);
                assert(data.skip(room) =~= final(writable.back)@);
                crate::util::lemma_filled(
                    before.buffer,
                    after.buffer,
                    data,
                    kept_front,
                    kept_back,
                );
            }
        }
        Ok(TcpTrackerRiseResult { writable })
    }

    /// Holds a packet back until the data before it has arrived.
    pub fn add_future_payload(&mut self, rf: RF) -> (r: Result<(), (RF, SnarfTcpError)>)
        requires
            old(self).wf(),
            old(self).init,
            rf.splittable(),
            is_segment(rf.segment()),
            0 < data_of(rf.segment()).len() <= TRACKER_BUFFER_LEN,
        ensures
            final(self).wf(),
            old(self)@.queue.len() < FUTURE_QUEUE_LIMIT ==> r is Ok && final(self)@ == (TrackerView {
                queue: old(self)@.queue.push(crate::packet::packet_view(rf)),
                ..old(self)@
            }),
            old(self)@.queue.len() >= FUTURE_QUEUE_LIMIT ==> r == Err::<(), _>(
                (rf, SnarfTcpError::FutureQueueOverflow),
            ) && *final(self) == *old(self),
    {
        if self.future_queue.len() >= FUTURE_QUEUE_LIMIT {
            return Err((rf, SnarfTcpError::FutureQueueOverflow));
        }
        let ghost before = *self;
        let mut rf = rf;
        let ghost packet = crate::packet::packet_view(rf);
        let (_net_header, segment) = rf.split();
        let seq: u32 = tcp_seq(segment);
        let flags: u8 = tcp_flags(segment);
        let header_len: usize = tcp_header_len(segment);
        let data_len: usize = segment.len() - header_len;
        let start_seq: u32 = if flags & SYN_MASK != 0 { seq.wrapping_add(1) } else { seq };
        assert(crate::packet::packet_view(rf) == packet);
        self.future_queue.push(FuturePacket { rf, start_seq, header_len, data_len });
        assert(self@.queue =~= before@.queue.push(packet));
        Ok(())
    }

    /// Lets all packets go that are held back; none of them adds anything to the stream.
    pub fn drain_nowrite_future_queue(&mut self) -> (r: Vec<FutureVerdict<'static, RF>>)
        requires
            old(self).wf(),
        ensures
            final(self).wf(),
            final(self)@ == (TrackerView { queue: seq![], ..old(self)@ }),
            r@.len() == old(self)@.queue.len(),
            forall|i: int|
                0 <= i < r@.len() ==> {
                    &&& crate::packet::packet_view((#[trigger] r@[i]).rf) == old(self)@.queue[i]
                    &&& r@[i].rf.splittable()
                    &&& is_segment(r@[i].rf.segment())
                    &&& data_of(r@[i].rf.segment()).len() <= TRACKER_BUFFER_LEN
                    &&& r@[i].header_len == crate::tcp_util::header_len_of(r@[i].rf.segment())
                    &&& r@[i].new_data_len == 0
                    &&& r@[i].writable@.len() == 0
                },
    {
        let ghost before = *self;
        let mut released: Vec<FutureVerdict<'static, RF>> = Vec::new();
        while self.future_queue.len() > 0
            invariant
                self.wf(),
                before.wf(),
                *self == (TcpPeerTracker { future_queue: self.future_queue, ..before }),
                released@.len() + self.future_queue@.len() == before.future_queue@.len(),
                self.future_queue@ == before.future_queue@.skip(released@.len() as int),
                forall|i: int|
                    0 <= i < released@.len() ==> {
                        &&& (#[trigger] released@[i]).rf == before.future_queue@[i].rf
                        &&& released@[i].header_len == before.future_queue@[i].header_len
                        &&& released@[i].new_data_len == 0
                        &&& released@[i].writable@.len() == 0
                    },
            decreases self.future_queue@.len(),
        {
            let ghost queue = self.future_queue@;
            let packet = self.future_queue.remove(0);
            assert(packet == before.future_queue@[released@.len() as int]);
            released.push(
                FutureVerdict {
                    rf: packet.rf,
                    header_len: packet.header_len,
                    new_data_len: 0,
                    writable: DequeSliceMut::mt(),
                },
            );
            assert forall|i: int| 0 <= i < self.future_queue@.len() implies (
            #[trigger] self.future_queue@[i]).wf() by {
                assert(self.future_queue@[i] == queue[i + 1]);
            }
        }
        assert(self@.queue =~= seq![]);
        assert forall|i: int| 0 <= i < released@.len() implies before.future_queue@[i].wf()
            && #[trigger] released@[i].rf == before.future_queue@[i].rf by {}
        released
    }

    /// The first packet that can be let go after `total` bytes that are about to be appended, or
    /// the number of packets.
    fn find_ready(&self, total: usize) -> (r: usize)
        requires
            self.wf(),
            total <= TRACKER_BUFFER_LEN,
        ensures
            r == self@.first_ready(0, total as int),
            r <= self.future_queue@.len(),
            r < self.future_queue@.len() ==> self@.ready(self@.queue[r as int], total as int),
    {
        let mut i: usize = 0;
        while i < self.future_queue.len()
            invariant
                self.wf(),
                total <= TRACKER_BUFFER_LEN,
                i <= self.future_queue@.len(),
                self@.first_ready(0, total as int) == self@.first_ready(i as int, total as int),
            decreases self.future_queue@.len() - i,
        {
            let packet = &self.future_queue[i];
            assert(self.future_queue@[i as int].wf());
            assert(self@.queue[i as int] == crate::packet::packet_view(packet.rf));
            let start: u32 = packet.start_seq;
            let ready: bool = if total == 0 {
                !self.init || !self.buffer.seq_is_future(start)
            } else {
                start == self.buffer.seq.wrapping_add(total as u32) && packet.data_len
                    <= self.buffer.len() - total
            };
            assert(ready == self@.ready(self@.queue[i as int], total as int));
            if ready {
                return i;
            }
            i = i + 1;
        }
        i
    }

    /// Puts the bytes of a packet that are remembered in place, and counts those that come
    /// next in the stream.
    fn make_ready(&mut self, packet: FuturePacket<RF>, total: usize) -> (r: ReadyPacket<RF>)
        requires
            old(self).wf(),
            packet.wf(),
        ensures
            *final(self) == *old(self),
            r.wf(),
            r.release() == old(self)@.release_of(
                crate::packet::packet_view(packet.rf),
                total as int,
            ),
    {
        let ghost view = self@;
        let start: u32 = packet.start_seq;
        let header_len: usize = packet.header_len;
        let data_len: usize = packet.data_len;
        let mut rf = packet.rf;
        let ghost segment = rf.segment();
        if total > 0 {
            return ReadyPacket { rf, header_len, new_data_len: data_len };
        }
        let (known, new_data_len) = self.classify(start, data_len);
        let retransmitted: usize = if known { data_len - new_data_len } else { 0 };
        proof {
            lemma_data_replaced(segment, view.rewritten(start, data_of(segment)));
        }
        if self.init {
            let (_net_header, payload) = rf.split();
            let (_header, data) = payload.split_at_mut(header_len);
            self.restore(start, retransmitted, data);
            assert(rf.segment() =~= header_of(segment) + view.rewritten(start, data_of(segment)));
        } else {
            assert(segment =~= header_of(segment) + view.rewritten(start, data_of(segment)));
        }
        ReadyPacket { rf, header_len, new_data_len }
    }

    /// Takes the packets that can be let go out of the queue, and counts the bytes that they add to
    /// the stream.
    fn take_ready(&mut self) -> (r: (Vec<ReadyPacket<RF>>, usize))
        requires
            old(self).wf(),
        ensures
            final(self).wf(),
            final(self).buffer == old(self).buffer,
            final(self)@ == (TrackerView { queue: old(self)@.stays(0), ..old(self)@ }),
            r.0@.len() == old(self)@.releases(0).len(),
            forall|i: int|
                0 <= i < r.0@.len() ==> (#[trigger] r.0@[i]).wf() && r.0@[i].release()
                    == old(self)@.releases(0)[i],
            r.1 == release_total(old(self)@.releases(0)),
            r.1 <= TRACKER_BUFFER_LEN,
    {
        let ghost before = *self;
        let mut ready: Vec<ReadyPacket<RF>> = Vec::new();
        let mut total: usize = 0;
        let ghost mut done: Seq<Release> = seq![];
        let mut next: usize = self.find_ready(total);
        assert(done + self@.releases(0) =~= before@.releases(0));
        while next < self.future_queue.len()
            invariant
                before.wf(),
                self.wf(),
                *self == (TcpPeerTracker { future_queue: self.future_queue, ..before }),
                next == self@.first_ready(0, total as int),
                next <= self.future_queue@.len(),
                next < self.future_queue@.len() ==> self@.ready(
                    self@.queue[next as int],
                    total as int,
                ),
                total <= TRACKER_BUFFER_LEN,
                total == release_total(done),
                ready@.len() == done.len(),
                forall|i: int|
                    0 <= i < ready@.len() ==> (#[trigger] ready@[i]).wf() && ready@[i].release()
                        == done[i],
                done + self@.releases(total as int) == before@.releases(0),
                self@.stays(total as int) == before@.stays(0),
            decreases self.future_queue@.len(),
        {
            let ghost view = self@;
            let ghost queue = self.future_queue@;
            let packet = self.future_queue.remove(next);
            assert(queue[next as int].wf());
            proof {
                assert forall|i: int| 0 <= i < self.future_queue@.len() implies (
                #[trigger] self.future_queue@[i]).wf() by {
                    assert(self.future_queue@[i] == queue[if i < next { i } else { i + 1 }]);
                }
                assert(self@.queue =~= view.queue.remove(next as int));
                assert(self@ == view.without(next as int));
            }
            let released = self.make_ready(packet, total);
            let ghost release = released.release();
            assert(release == view.release_of(view.queue[next as int], total as int));
            total = total + released.new_data_len;
            ready.push(released);
            proof {
                let rest = self@.releases(total as int);
                assert(done + (seq![release] + rest) =~= done.push(release) + rest);
                assert(done.push(release).drop_last() =~= done);
                done = done.push(release);
            }
            next = self.find_ready(total);
        }
        assert(done =~= before@.releases(0));
        (ready, total)
    }

    /// Lets packets go that do not come later any more, each with the room for the data that it adds
    /// to the stream: the first of them that adds data, those before it that add none, and those
    /// whose data comes right behind it. Others can be let go when the room has been filled.
    #[verifier::rlimit(40)]
    pub fn update_future_queue<'a>(&'a mut self) -> (r: Vec<FutureVerdict<'a, RF>>)
        requires
            old(self).wf(),
        ensures
            r@.len() == old(self)@.releases(0).len(),
            forall|i: int|
                0 <= i < r@.len() ==> {
                    let release = old(self)@.releases(0)[i];
                    &&& crate::packet::packet_view((#[trigger] r@[i]).rf) == release.packet
                    &&& r@[i].rf.splittable()
                    &&& is_segment(r@[i].rf.segment())
                    &&& r@[i].header_len == crate::tcp_util::header_len_of(r@[i].rf.segment())
                    &&& r@[i].new_data_len == release.new_data_len
                    &&& r@[i].new_data_len <= data_of(r@[i].rf.segment()).len()
                        <= TRACKER_BUFFER_LEN
                    &&& r@[i].writable@.len() == release.new_data_len
                },
            forall|parts: Seq<Seq<u8>>|
                #![trigger joined(parts)]
                parts.len() == r@.len() && (forall|i: int|
                    0 <= i < r@.len() ==> {
                        &&& #[trigger] parts[i] == final(r@[i].writable.front)@
                            + final(r@[i].writable.back)@
                        &&& final(r@[i].writable.front)@.len() == r@[i].writable.front@.len()
                        &&& final(r@[i].writable.back)@.len() == r@[i].writable.back@.len()
                    }) ==> final(self)@ == old(self)@.released(joined(parts)) && final(self).wf(),
    {
        let ghost before = *self;
        let ghost after = *final(self);
        let ghost releases = before@.releases(0);
        let (ready, total) = self.take_ready();
        if total > self.buffer.len() - self.seen {
            self.seen = self.buffer.len();
        } else {
            self.seen = self.seen + total;
        }
        let ghost middle = *self;
        let ghost ring = self.buffer;
        assert(middle.wf());
        let (room, rest) = self.buffer.update_and_return_split_ref(total);
        let ghost kept_front = rest.front@;
        let ghost kept_back = rest.back@;
        let ghost split = ring.room_before_wrap(total as int);
        proof {
            assert(room@.len() == total);
            assert(ring.buffer@.skip(ring.end as int).skip(split) =~= kept_front);
            assert(ring.buffer@.take(ring.end as int).skip(total - split) =~= kept_back);
        }
        let ghost room_front = final(room.front)@;
        let ghost room_back = final(room.back)@;
        let mut room = room;
        let mut ready = ready;
        let ghost all = ready@;
        let mut released: Vec<FutureVerdict<'a, RF>> = Vec::new();
        let ghost mut pieces = seq![(room_front, room_back)].take(0);
        let ghost mut lens: Seq<(int, int)> = seq![];
        while ready.len() > 0
            invariant
                ready@.len() + released@.len() == all.len(),
                ready@ == all.skip(released@.len() as int),
                all.len() == releases.len(),
                forall|i: int|
                    0 <= i < all.len() ==> (#[trigger] all[i]).wf() && all[i].release()
                        == releases[i],
                pieces.len() == released@.len(),
                lens.len() == released@.len(),
                forall|i: int|
                    0 <= i < released@.len() ==> {
                        &&& (#[trigger] released@[i]).rf == all[i].rf
                        &&& released@[i].header_len == all[i].header_len
                        &&& released@[i].new_data_len == all[i].new_data_len
                        &&& released@[i].writable@.len() == all[i].new_data_len
                        &&& pieces[i] == (
                            final(released@[i].writable.front)@,
                            final(released@[i].writable.back)@,
                        )
                        &&& lens[i] == (
                            released@[i].writable.front@.len() as int,
                            released@[i].writable.back@.len() as int,
                        )
                    },
                room@.len() + release_total(releases.take(released@.len() as int))
                    == release_total(releases),
                room.front@.len() > 0 ==> room.back@.len() == total - split,
                room_front == joined(firsts(pieces)) + final(room.front)@,
                room_back == joined(seconds(pieces)) + final(room.back)@,
                kept(pieces, lens) ==> {
                    &&& joined(wholes(pieces)) == joined(firsts(pieces)) + joined(seconds(pieces))
                    &&& joined(firsts(pieces)).len() + room.front@.len() == split
                    &&& joined(seconds(pieces)).len() + room.back@.len() == total - split
                },
            decreases ready@.len(),
        {
            let ghost n = released@.len() as int;
            let packet = ready.remove(0);
            assert(packet == all[n]);
            proof {
                assert forall|i: int| 0 <= i < releases.len() implies 0 <= (
                #[trigger] releases[i]).new_data_len by {
                    assert(all[i].release() == releases[i]);
                }
                lemma_release_total_next(releases, n);
            }
            let ghost front_len = room.front@.len();
            let ghost back_len = room.back@.len();
            let (writable, room_after) = room.split_mut(packet.new_data_len);
            assert(writable.front@.len() + room_after.front@.len() == front_len);
            assert(writable.back@.len() + room_after.back@.len() == back_len);
            assert(writable@.len() == packet.new_data_len);
            proof {
                let piece = (final(writable.front)@, final(writable.back)@);
                let len = (writable.front@.len() as int, writable.back@.len() as int);
                lemma_piece_joined(pieces, lens, piece, len);
                pieces = pieces.push(piece);
                lens = lens.push(len);
            }
            room = room_after;
            released.push(
                FutureVerdict {
                    rf: packet.rf,
                    header_len: packet.header_len,
                    new_data_len: packet.new_data_len,
                    writable,
                },
            );
        }
        proof {
            assert(releases.take(released@.len() as int) =~= releases);
            assert forall|parts: Seq<Seq<u8>>|
                #![trigger joined(parts)]
                parts.len() == released@.len() && (forall|i: int|
                    0 <= i < released@.len() ==> {
                        &&& #[trigger] parts[i] == final(released@[i].writable.front)@
                            + final(released@[i].writable.back)@
                        &&& final(released@[i].writable.front)@.len()
                            == released@[i].writable.front@.len()
                        &&& final(released@[i].writable.back)@.len()
                            == released@[i].writable.back@.len()
                    }) implies after@ == before@.released(joined(parts)) && after.wf() by {
                assert forall|i: int| 0 <= i < pieces.len() implies parts[i] == (
                #[trigger] pieces[i]).0 + pieces[i].1 && pieces[i].0.len() == lens[i].0
                    && pieces[i].1.len() == lens[i].1 by {
                    let _ = parts[i];
                }
                assert(parts =~= wholes(pieces));
                let data = joined(parts);
                assert(data.take(split) =~= joined(firsts(pieces)));
                assert(data.skip(split) =~= joined(seconds(pieces)));
                crate::util::lemma_filled(ring, after.buffer, data, kept_front, kept_back);
                assert(after == (TcpPeerTracker { buffer: after.buffer, ..middle }));
            }
        }
        released
    }
}

} // verus!
