//! A ring of bytes that remembers the last bytes of a TCP stream by their sequence numbers.
use vstd::prelude::*;

use crate::deque::{copy_to_front, DequeSliceMut};

verus! {

/// How many sequence numbers there are.
pub const SEQ_LIM: i64 = 0x1_0000_0000;

/// The sequence number `n` behind `seq`, counted around.
pub open spec fn seq_plus(seq: u32, n: int) -> u32 {
    ((seq + n) % (SEQ_LIM as int)) as u32
}

/// The last bytes of a stream. The byte before the sequence number `seq` is stored right before
/// the position `end`, and so on backwards around the ring.
#[derive(Clone, Debug)]
pub struct CircularSeqBuffer {
    pub buffer: Vec<u8>,
    pub end: u32,
    pub seq: u32,
}

impl CircularSeqBuffer {
    /// `end` is a position of the ring, and every position can be numbered by `end`.
    pub open spec fn wf(&self) -> bool {
        &&& self.buffer@.len() <= u32::MAX
        &&& self.end < self.buffer@.len() || self.end == 0
    }

    /// What the ring holds, in the order of the stream: the byte before `seq` is the last.
    pub open spec fn recent(&self) -> Seq<u8> {
        self.buffer@.skip(self.end as int) + self.buffer@.take(self.end as int)
    }

    /// The position `n` bytes behind `end`.
    pub open spec fn end_plus(&self, n: int) -> int {
        if self.end + n >= self.buffer@.len() {
            self.end + n - self.buffer@.len()
        } else {
            self.end + n
        }
    }

    /// How many of `n` bytes from `end` on stand before the ring starts over.
    pub open spec fn room_before_wrap(&self, n: int) -> int {
        if self.buffer@.len() - self.end < n {
            self.buffer@.len() - self.end
        } else {
            n
        }
    }

    /// How far the sequence number `seq` lies back, counted around.
    pub open spec fn distance_back(&self, seq: u32) -> int {
        (self.seq - seq) % (SEQ_LIM as int)
    }

    /// Where in the ring `n` bytes from the sequence number `seq` on start and end; a start before
    /// the ring's own is counted from the ring's end.
    pub open spec fn window(&self, seq: u32, n: int) -> (int, int) {
        let start = self.end - self.distance_back(seq);
        let end = start + n;
        if start < 0 && end < 0 {
            (start + self.buffer@.len(), end + self.buffer@.len())
        } else {
            (start, end)
        }
    }

    /// Whether the `n` bytes from the sequence number `seq` on lie inside the ring.
    pub open spec fn window_inside(&self, seq: u32, n: int) -> bool {
        let (start, end) = self.window(seq, n);
        &&& -self.buffer@.len() <= start
        &&& 0 <= end <= self.buffer@.len()
    }

    /// What stands in the ring for the `n` bytes from the sequence number `seq` on.
    pub open spec fn window_bytes(&self, seq: u32, n: int) -> Seq<u8> {
        let (start, end) = self.window(seq, n);
        let len = self.buffer@.len() as int;
        if start >= 0 {
            self.buffer@.subrange(start, end)
        } else {
            self.buffer@.subrange(len + start, len) + self.buffer@.subrange(0, end)
        }
    }

    pub fn new(buffer_size: usize) -> (r: Self)
        ensures
            r.buffer@ == Seq::new(buffer_size as nat, |i: int| 0u8),
            r.end == 0,
            r.seq == 0,
            buffer_size <= u32::MAX ==> r.wf(),
    {
        let buffer: Vec<u8> = vec![0u8; buffer_size];
        assert(buffer@ =~= Seq::new(buffer_size as nat, |i: int| 0u8));
        Self { buffer, end: 0, seq: 0 }
    }

    pub fn set_seq(&mut self, seq: u32)
        ensures
            *final(self) == (CircularSeqBuffer { seq, ..*old(self) }),
    {
        self.seq = seq;
    }

    pub fn seq_add(&mut self, increment: u32)
        ensures
            *final(self) == (CircularSeqBuffer {
                seq: seq_plus(old(self).seq, increment as int),
                ..*old(self)
            }),
    {
        self.seq = self.seq.wrapping_add(increment);
    }

    /// Whether `seq` is at most the length of the ring below the next sequence number. The numbers
    /// are compared as they are, not around.
    pub fn seq_in_buf(&self, seq: u32) -> (r: bool)
        requires
            self.buffer@.len() <= i64::MAX,
        ensures
            r == (0 <= self.seq - seq <= self.buffer@.len()),
    {
        let diff: i64 = (self.seq as i64 - seq as i64) % SEQ_LIM;

        0 <= diff && diff <= self.len() as i64
    }

    /// Whether `seq` is above the next sequence number by at most the length of the ring. The
    /// numbers are compared as they are, not around.
    pub fn seq_is_future(&self, seq: u32) -> (r: bool)
        requires
            self.buffer@.len() <= i64::MAX,
        ensures
            r == (1 <= seq - self.seq <= self.buffer@.len()),
    {
        let diff: i64 = (seq as i64 - self.seq as i64) % SEQ_LIM;

        1 <= diff && diff <= self.len() as i64
    }

    /// How many of the `data_len` bytes from `next_seq` on lie behind the next sequence number.
    pub fn get_new(&mut self, next_seq: u32, data_len: usize) -> (r: i64)
        requires
            next_seq + data_len <= i64::MAX,
            old(self).buffer@.len() + SEQ_LIM <= i64::MAX,
        ensures
            *final(self) == *old(self),
            ({
                let ahead = next_seq + data_len - old(self).seq;
                r == if ahead < 0 || ahead % (SEQ_LIM as int) + old(self).buffer@.len() >= SEQ_LIM {
                    0
                } else {
                    ahead % (SEQ_LIM as int)
                }
            }),
    {
        let mut new_data_len: i64 = (next_seq as i64 + data_len as i64 - (self.seq as i64))
            % SEQ_LIM;
        if (new_data_len + self.len() as i64) % SEQ_LIM < self.len() as i64 {
            new_data_len = 0;
        }
        new_data_len
    }

    pub fn len(&self) -> (r: usize)
        ensures
            r == self.buffer@.len(),
    {
        self.buffer.len()
    }

    pub fn is_empty(&self) -> (r: bool)
        ensures
            r == (self.buffer@.len() == 0),
    {
        self.buffer.is_empty()
    }

    /// Overwrites `data` with what the ring holds from the sequence number `seq` on.
    pub fn write_from_buffer_to_slice(&self, data: &mut [u8], seq: u32)
        requires
            self.buffer@.len() <= u32::MAX,
            self.window_inside(seq, old(data)@.len() as int),
        ensures
            final(data)@ == self.window_bytes(seq, old(data)@.len() as int),
    {
        let ghost n = data@.len() as int;
        let offset: i64 = self.seq.wrapping_sub(seq) as i64;
        assert(offset == self.distance_back(seq));
        let mut start: i64 = self.end as i64 - offset;
        let mut end: i64 = start + data.len() as i64;
        let buflen: usize = self.len();

        if start < 0 && end < 0 {
            start = start + buflen as i64;
            end = end + buflen as i64;
        }

        if start >= 0 && end >= 0 {
            let start: usize = start as usize;
            let end: usize = end as usize;
            copy_to_front(data, vstd::slice::slice_subrange(self.buffer.as_slice(), start, end));
            assert(data@ =~= self.window_bytes(seq, n));
        } else {
            let start: usize = (-start) as usize;
            let end: usize = end as usize;
            let (head, tail) = data.split_at_mut(start);
            let ring: &[u8] = self.buffer.as_slice();
            copy_to_front(head, vstd::slice::slice_subrange(ring, buflen - start, buflen));
            copy_to_front(tail, vstd::slice::slice_subrange(ring, 0, end));
            assert(data@ =~= self.window_bytes(seq, n));
        }
    }

    /// Moves on by `data_len` bytes, and hands out the room for them and the rest of the ring, in
    /// the order of the stream.
    pub fn update_and_return_split_ref<'a>(&'a mut self, data_len: usize) -> (r: (
        DequeSliceMut<'a, u8>,
        DequeSliceMut<'a, u8>,
    ))
        requires
            old(self).wf(),
            data_len <= old(self).buffer@.len(),
            old(self).end + data_len <= u32::MAX,
        ensures
            final(self).seq == seq_plus(old(self).seq, data_len as int),
            final(self).end == old(self).end_plus(data_len as int),
            r.0@ == old(self).recent().take(data_len as int),
            r.1@ == old(self).recent().skip(data_len as int),
            r.0.front@.len() == old(self).room_before_wrap(data_len as int),
            r.0.front@ + r.1.front@ == old(self).buffer@.skip(old(self).end as int),
            r.0.back@ + r.1.back@ == old(self).buffer@.take(old(self).end as int),
            final(self).buffer@ == (final(r.0.back)@ + final(r.1.back)@)
                + (final(r.0.front)@ + final(r.1.front)@),
    {
        let buffer_len: u32 = self.len() as u32;
        let old_end: usize = self.end as usize;

        self.seq = self.seq.wrapping_add(data_len as u32);

        self.end = self.end + data_len as u32;
        if self.end >= buffer_len {
            self.end = self.end - buffer_len;
        }

        let buffer = DequeSliceMut::from_slice_mut_start_at(self.buffer.as_mut_slice(), old_end);

        buffer.split_mut(data_len)
    }

    /// Moves on by `data_len` bytes; the room for them keeps what it held.
    pub fn update(&mut self, data_len: usize)
        requires
            old(self).wf(),
            data_len <= old(self).buffer@.len(),
            old(self).end + data_len <= u32::MAX,
        ensures
            final(self).buffer@ == old(self).buffer@,
            final(self).seq == seq_plus(old(self).seq, data_len as int),
            final(self).end == old(self).end_plus(data_len as int),
            final(self).wf(),
    {
        let buffer_len: u32 = self.buffer.len() as u32;

        self.seq = self.seq.wrapping_add(data_len as u32);

        self.end = self.end + data_len as u32;
        if self.end >= buffer_len {
            self.end = self.end - buffer_len;
        }
    }

    /// Appends `data` to the stream; as many of the oldest bytes fall out.
    pub fn push_data_to_buffer(&mut self, data: &[u8])
        requires
            old(self).wf(),
            data@.len() <= old(self).buffer@.len(),
            old(self).end + data@.len() <= u32::MAX,
        ensures
            final(self).recent() == old(self).recent().skip(data@.len() as int) + data@,
            final(self).buffer@.len() == old(self).buffer@.len(),
            final(self).seq == seq_plus(old(self).seq, data@.len() as int),
            final(self).end == old(self).end_plus(data@.len() as int),
            final(self).wf(),
    {
        let ghost before = *self;
        let (mut write_space, rest) = self.update_and_return_split_ref(data.len());
        let ghost kept_front = rest.front@;
        let ghost kept_back = rest.back@;
        proof {
            let room = before.room_before_wrap(data@.len() as int);
            assert(write_space@.len() == data@.len());
            assert(before.buffer@.skip(before.end as int).skip(room) =~= kept_front);
            assert(before.buffer@.take(before.end as int).skip(data@.len() - room) =~= kept_back);
        }
        write_space.copy_from_slice(data);
        proof {
            lemma_filled(before, *self, data@, kept_front, kept_back);
        }
    }
}

/// Filling the room for `data`, and nothing else, appends `data` to the stream.
pub proof fn lemma_filled(
    before: CircularSeqBuffer,
    after: CircularSeqBuffer,
    data: Seq<u8>,
    kept_front: Seq<u8>,
    kept_back: Seq<u8>,
)
    requires
        before.wf(),
        data.len() <= before.buffer@.len(),
        ({
            let room = before.room_before_wrap(data.len() as int);
            &&& before.buffer@.skip(before.end as int).skip(room) == kept_front
            &&& before.buffer@.take(before.end as int).skip(data.len() - room) == kept_back
            &&& after.buffer@ == (data.skip(room) + kept_back) + (data.take(room) + kept_front)
        }),
        after.end == before.end_plus(data.len() as int),
    ensures
        after.wf(),
        after.buffer@.len() == before.buffer@.len(),
        after.recent() == before.recent().skip(data.len() as int) + data,
{
    assert(after.recent() =~= before.recent().skip(data.len() as int) + data);
}

/// Bytes that lie back by no more than the ring holds are read as they stand in the stream.
pub proof fn law_window_is_stream(buffer: CircularSeqBuffer, seq: u32, n: int)
    requires
        buffer.wf(),
        0 <= n <= buffer.distance_back(seq) <= buffer.buffer@.len(),
    ensures
        buffer.window_inside(seq, n),
        buffer.window_bytes(seq, n) == buffer.recent().subrange(
            buffer.buffer@.len() - buffer.distance_back(seq),
            buffer.buffer@.len() - buffer.distance_back(seq) + n,
        ),
{
    assert(buffer.window_bytes(seq, n) =~= buffer.recent().subrange(
        buffer.buffer@.len() - buffer.distance_back(seq),
        buffer.buffer@.len() - buffer.distance_back(seq) + n,
    ));
}

/// What has just been appended is read back, whole or in part, by its sequence numbers.
pub proof fn law_read_gives_back_write(
    before: CircularSeqBuffer,
    after: CircularSeqBuffer,
    data: Seq<u8>,
    i: int,
    n: int,
)
    requires
        before.wf(),
        after.wf(),
        after.buffer@.len() == before.buffer@.len(),
        data.len() <= before.buffer@.len(),
        after.recent() == before.recent().skip(data.len() as int) + data,
        after.seq == seq_plus(before.seq, data.len() as int),
        0 <= i,
        0 <= n,
        i + n <= data.len(),
    ensures
        after.window_inside(seq_plus(before.seq, i), n),
        after.window_bytes(seq_plus(before.seq, i), n) == data.subrange(i, i + n),
{
    let seq = seq_plus(before.seq, i);
    assert(after.distance_back(seq) == data.len() - i);
    law_window_is_stream(after, seq, n);
    assert(after.window_bytes(seq, n) =~= data.subrange(i, i + n));
}

/// What can be read stays readable, unchanged, while no more bytes follow than the ring has room
/// for beside it.
pub proof fn law_write_keeps_older_bytes(
    before: CircularSeqBuffer,
    after: CircularSeqBuffer,
    data: Seq<u8>,
    seq: u32,
    n: int,
)
    requires
        before.wf(),
        after.wf(),
        after.buffer@.len() == before.buffer@.len(),
        after.recent() == before.recent().skip(data.len() as int) + data,
        after.seq == seq_plus(before.seq, data.len() as int),
        0 <= n <= before.distance_back(seq),
        before.distance_back(seq) + data.len() <= before.buffer@.len(),
    ensures
        after.window_inside(seq, n),
        after.window_bytes(seq, n) == before.window_bytes(seq, n),
{
    assert(after.distance_back(seq) == before.distance_back(seq) + data.len());
    law_window_is_stream(before, seq, n);
    law_window_is_stream(after, seq, n);
    assert(after.window_bytes(seq, n) =~= before.window_bytes(seq, n));
}

/// Numbers go around: behind the last sequence number comes 0.
pub proof fn law_numbers_go_around(seq: u32, n: int, m: int)
    ensures
        seq_plus(seq, n) == (seq + n) % 0x1_0000_0000,
        seq_plus(seq_plus(seq, n), m) == (seq + n + m) % 0x1_0000_0000,
        seq_plus(seq, n) == seq_plus(seq, m) <==> (n - m) % 0x1_0000_0000 == 0,
{
}

/// The stream is read from the ring from `end` on, around to the byte before it.
pub proof fn law_stream_runs_around_the_ring(buffer: CircularSeqBuffer, i: int)
    requires
        buffer.wf(),
        0 <= i < buffer.buffer@.len(),
    ensures
        buffer.recent().len() == buffer.buffer@.len(),
        buffer.recent()[i] == buffer.buffer@[(buffer.end + i) % (buffer.buffer@.len() as int)],
        buffer.end_plus(i) == (buffer.end + i) % (buffer.buffer@.len() as int),
        buffer.end_plus(buffer.buffer@.len() as int) == buffer.end,
        buffer.end + buffer.room_before_wrap(i) <= buffer.buffer@.len(),
        buffer.room_before_wrap(i) <= i,
        buffer.room_before_wrap(i) == i || buffer.end + buffer.room_before_wrap(i)
            == buffer.buffer@.len(),
{
    let len = buffer.buffer@.len() as int;
    if buffer.end + i < len {
        vstd::arithmetic::div_mod::lemma_small_mod((buffer.end + i) as nat, len as nat);
    } else {
        vstd::arithmetic::div_mod::lemma_mod_multiples_vanish(1, buffer.end + i - len, len);
        vstd::arithmetic::div_mod::lemma_small_mod((buffer.end + i - len) as nat, len as nat);
        assert(len * 1 + (buffer.end + i - len) == buffer.end + i);
    }
}

/// A byte with a sequence number is read from where it stands in the ring: as far before `end` as
/// its number is before the next one, around the numbers and around the ring.
pub proof fn law_byte_is_found_by_its_number(buffer: CircularSeqBuffer, seq: u32, n: int, i: int)
    requires
        buffer.wf(),
        0 <= i < n,
        buffer.window_inside(seq, n),
    ensures
        buffer.window_bytes(seq, n).len() == n,
        buffer.window_bytes(seq, n)[i] == buffer.buffer@[(buffer.end - (buffer.seq - seq)
            % 0x1_0000_0000 + i) % (buffer.buffer@.len() as int)],
{
    let len = buffer.buffer@.len() as int;
    let place = buffer.end - (buffer.seq - seq) % 0x1_0000_0000 + i;
    let (start, end) = buffer.window(seq, n);
    let at = if start + i < 0 { start + i + len } else { start + i };
    assert(0 <= at < len);
    assert(buffer.window_bytes(seq, n)[i] == buffer.buffer@[at]);
    vstd::arithmetic::div_mod::lemma_small_mod(at as nat, len as nat);
    if at == place + len {
        vstd::arithmetic::div_mod::lemma_mod_multiples_vanish(1, place, len);
        assert(len * 1 + place == at);
    } else if at == place + 2 * len {
        vstd::arithmetic::div_mod::lemma_mod_multiples_vanish(2, place, len);
        assert(len * 2 + place == at);
    } else {
        assert(at == place);
    }
}

/// All of what the ring holds can be read.
pub proof fn law_last_bytes_can_be_read(buffer: CircularSeqBuffer, seq: u32, n: int)
    requires
        buffer.wf(),
        0 <= n <= (buffer.seq - seq) % 0x1_0000_0000 <= buffer.buffer@.len(),
    ensures
        buffer.window_inside(seq, n),
{
}

} // verus!
