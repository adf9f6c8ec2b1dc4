//! The fields of an IPv4 header and the checksum of what is built on IPv4.
use vstd::prelude::*;

verus! {

/// The number that the two bytes make in network order.
pub open spec fn be16(hi: u8, lo: u8) -> int {
    hi * 256 + lo
}

/// The number that the four bytes make in network order.
pub open spec fn be32(a: u8, b: u8, c: u8, d: u8) -> int {
    a * 0x100_0000 + b * 0x1_0000 + c * 0x100 + d
}

/// Reads two bytes in network order.
pub fn read_be16(hi: u8, lo: u8) -> (r: u16)
    ensures
        r == be16(hi, lo),
        r == hi * 256 + lo,
{
    hi as u16 * 256 + lo as u16
}

/// Reads four bytes in network order.
pub fn read_be32(a: u8, b: u8, c: u8, d: u8) -> (r: u32)
    ensures
        r == be32(a, b, c, d),
        r == ((a * 256 + b) * 256 + c) * 256 + d,
{
    a as u32 * 0x100_0000 + b as u32 * 0x1_0000 + c as u32 * 0x100 + d as u32
}

/// The 16-bit word number `w` of `data`, in network order; a byte after the last one counts as
/// zero.
pub open spec fn be_word(data: Seq<u8>, w: int) -> int {
    be16(data[2 * w], if 2 * w + 1 < data.len() { data[2 * w + 1] } else { 0 })
}

/// The sum of the first `words` words of `data`, without the word number `skipword`.
pub open spec fn be_word_sum(data: Seq<u8>, words: int, skipword: int) -> int
    decreases words,
{
    if words <= 0 {
        0
    } else {
        be_word_sum(data, words - 1, skipword) + if words - 1 == skipword {
            0
        } else {
            be_word(data, words - 1)
        }
    }
}

/// How many words `data` has, an odd last byte being a word of its own.
pub open spec fn word_count(data: Seq<u8>) -> int {
    (data.len() as int + 1) / 2
}

/// The sum of all words of `data` but the word number `skipword`.
pub open spec fn data_word_sum(data: Seq<u8>, skipword: int) -> int {
    be_word_sum(data, word_count(data), skipword)
}

/// The sum of the two words of an address.
pub open spec fn address_sum(ip: Seq<u8>) -> int {
    be16(ip[0], ip[1]) + be16(ip[2], ip[3])
}

/// The protocol number of TCP.
pub const TCP_PROTOCOL: u32 = 6;

/// The number of the word that holds the checksum of a TCP segment.
pub const TCP_CHECKSUM_WORD: usize = 8;

/// What the pseudo header of a segment of `len` bytes adds to the sum.
pub open spec fn pseudo_header_sum(source: Seq<u8>, destination: Seq<u8>, len: int) -> int {
    address_sum(source) + address_sum(destination) + TCP_PROTOCOL + len % 0x1_0000_0000
}

/// The sum over pseudo header and segment that the checksum of the segment is made from.
pub open spec fn checksum_sum(data: Seq<u8>, source: Seq<u8>, destination: Seq<u8>) -> int {
    pseudo_header_sum(source, destination, data.len() as int) + data_word_sum(
        data,
        TCP_CHECKSUM_WORD as int,
    )
}

/// `sum` as a one's complement number of 16 bits: the carries are added back in.
pub open spec fn folded(sum: int) -> int {
    if sum == 0 {
        0
    } else {
        (sum - 1) % 0xFFFF + 1
    }
}

/// Reads beyond no word: a sum over more words is at least as large.
pub proof fn lemma_word_sum_monotone(data: Seq<u8>, words: int, more: int, skipword: int)
    requires
        words <= more,
    ensures
        0 <= be_word_sum(data, words, skipword) <= be_word_sum(data, more, skipword),
    decreases more - words, words,
{
    if words < more {
        lemma_word_sum_monotone(data, words, more - 1, skipword);
    } else if words > 0 {
        lemma_word_sum_monotone(data, words - 1, words - 1, skipword);
    }
}

/// A sum of words is bounded by their number.
pub proof fn lemma_word_sum_bounded(data: Seq<u8>, words: int, skipword: int)
    requires
        0 <= words,
    ensures
        0 <= be_word_sum(data, words, skipword) <= words * 0xFFFF,
    decreases words,
{
    if words > 0 {
        lemma_word_sum_bounded(data, words - 1, skipword);
    }
}

/// Adding the high half of a number to its low half changes nothing but how often the carries
/// have been added in.
proof fn lemma_fold_step(sum: int)
    requires
        0 <= sum,
    ensures
        folded(sum / 0x1_0000 + sum % 0x1_0000) == folded(sum),
{
    let hi = sum / 0x1_0000;
    let lo = sum % 0x1_0000;
    if sum != 0 {
        assert(hi + lo >= 1);
        vstd::arithmetic::div_mod::lemma_mod_multiples_vanish(hi, hi + lo - 1, 0xFFFF);
        assert(0xFFFF * hi + (hi + lo - 1) == sum - 1);
    }
}

/// Calculates the checksum for a packet built on IPv4.
pub fn ipv4_checksum(data: &[u8], source: [u8; 4], destination: [u8; 4]) -> (r: u16)
    requires
        checksum_sum(data@, source@, destination@) <= u32::MAX,
    ensures
        r == 0xFFFF - folded(checksum_sum(data@, source@, destination@)),
        (r + byte_sum(data@, data@.len() as int, 16) + 256 * source@[0] + source@[1] + 256
            * source@[2] + source@[3] + 256 * destination@[0] + destination@[1] + 256
            * destination@[2] + destination@[3] + 6 + data@.len() % 0x1_0000_0000) % 65535 == 0,
        r != 65535,
{
    let skipword: usize = TCP_CHECKSUM_WORD;
    let mut sum: u32 = 0;
    proof {
        lemma_word_sum_monotone(data@, 0, word_count(data@), skipword as int);
    }

    // The pseudo header.
    sum += ipv4_word_sum(source);
    sum += ipv4_word_sum(destination);
    sum += TCP_PROTOCOL;

    let len: usize = data.len();
    proof {
        let n: u64 = len as u64;
        assert(n as u32 == n % 0x1_0000_0000) by (bit_vector);
    }
    sum += #[verifier::truncate] (len as u32);

    // Header and data of the packet.
    sum += sum_be_words(data, skipword);

    proof {
        law_word_sum_has_every_byte(data@, skipword as int);
    }
    finalize_checksum(sum)
}

/// The sum of the two words of an address.
pub fn ipv4_word_sum(ip: [u8; 4]) -> (r: u32)
    ensures
        r == address_sum(ip@),
        r == 256 * ip@[0] + ip@[1] + 256 * ip@[2] + ip@[3],
{
    let a: u8 = ip[0];
    let b: u8 = ip[1];
    let c: u8 = ip[2];
    let d: u8 = ip[3];
    read_be16(a, b) as u32 + read_be16(c, d) as u32
}

/// Sums all words (16 bit chunks) in the given data. The word at word offset `skipword` is
/// skipped. Each word is treated as big endian.
pub fn sum_be_words(data: &[u8], skipword: usize) -> (r: u32)
    requires
        data_word_sum(data@, skipword as int) <= u32::MAX,
    ensures
        r == data_word_sum(data@, skipword as int),
        r == byte_sum(data@, data@.len() as int, 2 * skipword),
{
    proof {
        law_word_sum_has_every_byte(data@, skipword as int);
    }
    let len: usize = data.len();
    let mut sum: u32 = 0;
    let mut i: usize = 0;
    while i < len / 2
        invariant
            i <= len / 2,
            len == data@.len(),
            sum == be_word_sum(data@, i as int, skipword as int),
            data_word_sum(data@, skipword as int) <= u32::MAX,
        decreases len / 2 - i,
    {
        proof {
            lemma_word_sum_monotone(data@, i + 1, word_count(data@), skipword as int);
        }
        if i != skipword {
            sum += read_be16(data[2 * i], data[2 * i + 1]) as u32;
        }
        i = i + 1;
    }

    // An odd last byte is the high half of a word.
    if i != skipword && len % 2 != 0 {
        sum += data[len - 1] as u32 * 256;
    }
    sum
}

/// Folds a sum to 16 bits and inverts it. The result is in host order.
pub fn finalize_checksum(sum: u32) -> (r: u16)
    ensures
        r == 0xFFFF - folded(sum as int),
        (sum + r) % 65535 == 0,
        r == 65535 <==> sum == 0,
{
    proof {
        law_folded(sum as int);
        let f = folded(sum as int);
        assert(sum + (0xFFFF - f) == sum - f + 0xFFFF);
    }
    let mut rest: u32 = sum;
    while rest >> 16 != 0
        invariant
            folded(rest as int) == folded(sum as int),
        decreases rest,
    {
        assert(rest >> 16 == rest / 0x1_0000 && rest & 0xFFFF == rest % 0x1_0000) by (bit_vector);
        assert(rest >> 16 != 0 ==> (rest >> 16) + (rest & 0xFFFF) < rest) by (bit_vector);
        proof {
            lemma_fold_step(rest as int);
        }
        rest = (rest >> 16) + (rest & 0xFFFF);
    }
    assert(rest >> 16 == 0 ==> rest <= 0xFFFF) by (bit_vector);
    assert(rest <= 0xFFFF ==> !rest as u16 == 0xFFFF - rest) by (bit_vector);
    #[verifier::truncate] (!rest as u16)
}

/// The length in bytes that the IPv4 header at the start of `packet` gives itself.
pub open spec fn ipv4_header_len_spec(packet: Seq<u8>) -> int {
    packet[0] % 16 * 4
}

/// The length in bytes that the IPv4 header at the start of `ipv4_payload` gives itself.
pub fn ipv4_header_len(ipv4_payload: &[u8]) -> (r: u8)
    requires
        1 <= ipv4_payload@.len(),
    ensures
        r == ipv4_header_len_spec(ipv4_payload@),
        r == ipv4_payload@[0] % 16 * 4,
        r <= 60,
{
    let first: u8 = ipv4_payload[0];
    first % 16 * 4
}

/// The length in bytes of the packet, header and all, that its IPv4 header gives.
pub fn ipv4_total_len(ipv4_payload: &[u8]) -> (r: u16)
    requires
        4 <= ipv4_payload@.len(),
    ensures
        r == be16(ipv4_payload@[2], ipv4_payload@[3]),
        r == ipv4_payload@[2] * 256 + ipv4_payload@[3],
{
    read_be16(ipv4_payload[2], ipv4_payload[3])
}

/// The source address of the packet.
pub fn ipv4_src_ip(ipv4_payload: &[u8]) -> (r: [u8; 4])
    requires
        16 <= ipv4_payload@.len(),
    ensures
        r@ == ipv4_payload@.subrange(12, 16),
{
    let r: [u8; 4] = [ipv4_payload[12], ipv4_payload[13], ipv4_payload[14], ipv4_payload[15]];
    assert(r@ =~= ipv4_payload@.subrange(12, 16));
    r
}

/// The destination address of the packet.
pub fn ipv4_dst_ip(ipv4_payload: &[u8]) -> (r: [u8; 4])
    requires
        20 <= ipv4_payload@.len(),
    ensures
        r@ == ipv4_payload@.subrange(16, 20),
{
    let r: [u8; 4] = [ipv4_payload[16], ipv4_payload[17], ipv4_payload[18], ipv4_payload[19]];
    assert(r@ =~= ipv4_payload@.subrange(16, 20));
    r
}

/// The IPv4 header with its options, and what follows it.
pub fn ipv4_split(ipv4_payload: &[u8]) -> (r: (&[u8], &[u8]))
    requires
        1 <= ipv4_payload@.len(),
        ipv4_header_len_spec(ipv4_payload@) <= ipv4_payload@.len(),
    ensures
        r.0@ == ipv4_payload@.take(ipv4_header_len_spec(ipv4_payload@)),
        r.1@ == ipv4_payload@.skip(ipv4_header_len_spec(ipv4_payload@)),
        r.0@.len() == ipv4_payload@[0] % 16 * 4,
        r.0@ + r.1@ == ipv4_payload@,
{
    ipv4_payload.split_at(ipv4_header_len(ipv4_payload) as usize)
}

/// The skipped word has no part in the sum.
pub proof fn lemma_word_sum_ignores_skipped(a: Seq<u8>, b: Seq<u8>, words: int, skipword: int)
    requires
        a.len() == b.len(),
        0 <= words <= word_count(a),
        forall|i: int|
            0 <= i < a.len() && i != 2 * skipword && i != 2 * skipword + 1 ==> a[i] == b[i],
    ensures
        be_word_sum(a, words, skipword) == be_word_sum(b, words, skipword),
    decreases words,
{
    if words > 0 {
        lemma_word_sum_ignores_skipped(a, b, words - 1, skipword);
    }
}

/// Leaving a word out of the sum takes just that word from it.
pub proof fn lemma_word_sum_with_skipped(data: Seq<u8>, words: int, skipword: int)
    requires
        0 <= words,
        0 <= skipword,
    ensures
        be_word_sum(data, words, -1) == be_word_sum(data, words, skipword) + if skipword < words {
            be_word(data, skipword)
        } else {
            0
        },
    decreases words,
{
    if words > 0 {
        lemma_word_sum_with_skipped(data, words - 1, skipword);
    }
}

/// A sum and the complement of its folded form cancel out: together they fold to all ones.
pub proof fn lemma_complement_folds_to_ones(sum: int)
    requires
        0 <= sum,
    ensures
        0 <= folded(sum) <= 0xFFFF,
        folded(sum + (0xFFFF - folded(sum))) == 0xFFFF,
{
    if sum > 0 {
        let q = (sum - 1) / 0xFFFF;
        assert(sum + (0xFFFF - folded(sum)) - 1 == 0xFFFF * q + 0xFFFE) by {
            vstd::arithmetic::div_mod::lemma_fundamental_div_mod(sum - 1, 0xFFFF);
        }
        vstd::arithmetic::div_mod::lemma_mod_multiples_vanish(q, 0xFFFE, 0xFFFF);
    }
}

/// What the first `n` bytes of `data` add up to, those at even places counting 256 times, without
/// the two bytes from `gap` on.
pub open spec fn byte_sum(data: Seq<u8>, n: int, gap: int) -> int
    decreases n,
{
    if n <= 0 {
        0
    } else {
        byte_sum(data, n - 1, gap) + if n - 1 == gap || n - 1 == gap + 1 {
            0
        } else if (n - 1) % 2 == 0 {
            256 * data[n - 1]
        } else {
            1 * data[n - 1]
        }
    }
}

/// Words and bytes add up to the same.
proof fn lemma_words_are_bytes(data: Seq<u8>, words: int, skipword: int)
    requires
        0 <= words,
        2 * words <= data.len() + 1,
    ensures
        be_word_sum(data, words, skipword) == byte_sum(
            data,
            if 2 * words <= data.len() {
                2 * words
            } else {
                data.len() as int
            },
            2 * skipword,
        ),
    decreases words,
{
    if words > 0 {
        lemma_words_are_bytes(data, words - 1, skipword);
        let n = 2 * words;
        assert(byte_sum(data, n - 1, 2 * skipword) == byte_sum(data, n - 2, 2 * skipword)
            + if n - 2 == 2 * skipword || n - 2 == 2 * skipword + 1 {
            0
        } else {
            256 * data[n - 2]
        });
        if n <= data.len() {
            assert(byte_sum(data, n, 2 * skipword) == byte_sum(data, n - 1, 2 * skipword)
                + if n - 1 == 2 * skipword || n - 1 == 2 * skipword + 1 {
                0
            } else {
                1 * data[n - 1]
            });
        }
    }
}

/// The sum of the words has every byte once, whatever the length: at an even place 256 times, at
/// an odd place as it is, and the two bytes of the word that is left out not at all.
pub proof fn law_word_sum_has_every_byte(data: Seq<u8>, skipword: int)
    ensures
        data_word_sum(data, skipword) == byte_sum(data, data.len() as int, 2 * skipword),
{
    lemma_words_are_bytes(data, word_count(data), skipword);
}

/// One byte more at place `i` raises the sum by 256 if `i` is even and by 1 if it is odd; in the
/// word that is left out it changes nothing.
pub proof fn law_word_sum_counts_each_byte(data: Seq<u8>, i: int, byte: u8, skipword: int)
    requires
        0 <= i < data.len(),
    ensures
        data_word_sum(data.update(i, byte), skipword) - data_word_sum(data, skipword)
            == if i / 2 == skipword {
            0
        } else if i % 2 == 0 {
            256 * (byte - data[i])
        } else {
            byte - data[i]
        },
{
    law_word_sum_has_every_byte(data, skipword);
    law_word_sum_has_every_byte(data.update(i, byte), skipword);
    lemma_byte_sum_update(data, data.len() as int, i, byte, 2 * skipword);
}

proof fn lemma_byte_sum_update(data: Seq<u8>, n: int, i: int, byte: u8, gap: int)
    requires
        0 <= i < data.len(),
        n <= data.len(),
    ensures
        byte_sum(data.update(i, byte), n, gap) - byte_sum(data, n, gap) == if i >= n || i == gap
            || i == gap + 1 {
            0
        } else if i % 2 == 0 {
            256 * (byte - data[i])
        } else {
            byte - data[i]
        },
    decreases n,
{
    if n > 0 {
        lemma_byte_sum_update(data, n - 1, i, byte, gap);
    }
}

/// A byte that comes behind `data` adds 256 times itself if `data` has an even length and itself
/// once if it has an odd one; in the word that is left out it adds nothing. No bytes add up to 0.
pub proof fn law_word_sum_grows_with_each_byte(data: Seq<u8>, byte: u8, skipword: int)
    ensures
        data_word_sum(data.push(byte), skipword) - data_word_sum(data, skipword) == if data.len()
            as int / 2 == skipword {
            0
        } else if data.len() % 2 == 0 {
            256 * byte
        } else {
            1 * byte
        },
        data_word_sum(Seq::empty(), skipword) == 0,
{
    law_word_sum_has_every_byte(data, skipword);
    law_word_sum_has_every_byte(data.push(byte), skipword);
    lemma_byte_sum_agrees(data, data.push(byte), data.len() as int, 2 * skipword);
}

/// The sum of the first bytes depends on those alone.
pub proof fn lemma_byte_sum_agrees(a: Seq<u8>, b: Seq<u8>, n: int, gap: int)
    requires
        forall|i: int| 0 <= i < n && i != gap && i != gap + 1 ==> a[i] == b[i],
    ensures
        byte_sum(a, n, gap) == byte_sum(b, n, gap),
    decreases n,
{
    if n > 0 {
        lemma_byte_sum_agrees(a, b, n - 1, gap);
    }
}

/// What two bytes add that stand in place of a gap.
pub proof fn lemma_byte_sum_gap(data: Seq<u8>, n: int, gap: int)
    requires
        0 <= gap,
        gap % 2 == 0,
    ensures
        byte_sum(data, n, -2) == byte_sum(data, n, gap) + if gap + 1 < n {
            256 * data[gap] + data[gap + 1]
        } else if gap < n {
            256 * data[gap]
        } else {
            0
        },
    decreases n,
{
    if n > 0 {
        lemma_byte_sum_gap(data, n - 1, gap);
    }
}

/// The folded form of a sum is the same number modulo 65535, and is 0 only for 0.
pub proof fn law_folded(sum: int)
    requires
        0 <= sum,
    ensures
        0 <= folded(sum) <= 65535,
        (sum - folded(sum)) % 65535 == 0,
        folded(sum) == 0 <==> sum == 0,
{
    if sum > 0 {
        let q = (sum - 1) / 0xFFFF;
        assert(sum - folded(sum) == 0xFFFF * q) by {
            vstd::arithmetic::div_mod::lemma_fundamental_div_mod(sum - 1, 0xFFFF);
        }
        vstd::arithmetic::div_mod::lemma_mod_multiples_basic(q, 0xFFFF);
        assert(0xFFFF * q == q * 0xFFFF);
    }
}

} // verus!
