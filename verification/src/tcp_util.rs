//! The fields of a TCP segment, alone or inside an IPv4 packet.
use vstd::prelude::*;

use crate::ipv4_util::{
    ipv4_checksum, ipv4_dst_ip, ipv4_header_len, ipv4_split, ipv4_src_ip, ipv4_total_len,
    read_be16, read_be32,
};

verus! {

pub const TCP_SRCPORT_OFFSET: usize = 0;

pub const TCP_DSTPORT_OFFSET: usize = 2;

pub const TCP_SEQ_OFFSET: usize = 4;

pub const TCP_DATAOFFSET_IDX: usize = 12;

pub const TCP_FLAGS_IDX: usize = 13;

pub const TCP_CHECKSUM_OFFSET: usize = 16;

pub const FIN_MASK: u8 = 0x1;

pub const SYN_MASK: u8 = 0x2;

pub const RST_MASK: u8 = 0x4;

pub const PSH_MASK: u8 = 0x8;

pub const ACK_MASK: u8 = 0x10;

pub const URG_MASK: u8 = 0x20;

pub const ECE_MASK: u8 = 0x40;

pub const CWR_MASK: u8 = 0x80;

/// The length in bytes of the header of `segment`.
pub open spec fn header_len_of(segment: Seq<u8>) -> int {
    segment[12] / 16 * 4
}

/// The sequence number of `segment`.
pub open spec fn seq_of(segment: Seq<u8>) -> int {
    crate::ipv4_util::be32(segment[4], segment[5], segment[6], segment[7])
}

/// The source port of `segment`.
pub open spec fn src_port_of(segment: Seq<u8>) -> int {
    crate::ipv4_util::be16(segment[0], segment[1])
}

/// The destination port of `segment`.
pub open spec fn dst_port_of(segment: Seq<u8>) -> int {
    crate::ipv4_util::be16(segment[2], segment[3])
}

/// Whether `flags` has the bit of `mask`.
pub open spec fn has_flag(flags: u8, mask: u8) -> bool {
    flags & mask != 0
}

/// What follows the IPv4 header of `packet`.
pub open spec fn ipv4_body(packet: Seq<u8>) -> Seq<u8> {
    packet.skip(crate::ipv4_util::ipv4_header_len_spec(packet))
}

/// Whether `packet` reaches `len` bytes beyond its IPv4 header.
pub open spec fn ipv4_body_reaches(packet: Seq<u8>, len: int) -> bool {
    &&& 1 <= packet.len()
    &&& crate::ipv4_util::ipv4_header_len_spec(packet) + len <= packet.len()
}

pub fn tcp_header_len(tcp_payload: &[u8]) -> (r: usize)
    requires
        12 < tcp_payload@.len(),
    ensures
        r == header_len_of(tcp_payload@),
        r == tcp_payload@[12] / 16 * 4,
        r <= 60,
{
    let offset: u8 = tcp_payload[TCP_DATAOFFSET_IDX];
    assert(offset >> 4 == offset / 16) by (bit_vector);
    (offset >> 4) as usize * 4
}

pub fn tcp_seq(tcp_payload: &[u8]) -> (r: u32)
    requires
        8 <= tcp_payload@.len(),
    ensures
        r == seq_of(tcp_payload@),
        r == ((tcp_payload@[4] * 256 + tcp_payload@[5]) * 256 + tcp_payload@[6]) * 256
            + tcp_payload@[7],
{
    read_be32(
        tcp_payload[TCP_SEQ_OFFSET],
        tcp_payload[TCP_SEQ_OFFSET + 1],
        tcp_payload[TCP_SEQ_OFFSET + 2],
        tcp_payload[TCP_SEQ_OFFSET + 3],
    )
}

pub fn tcp_src_port(tcp_payload: &[u8]) -> (r: u16)
    requires
        2 <= tcp_payload@.len(),
    ensures
        r == src_port_of(tcp_payload@),
        r == tcp_payload@[0] * 256 + tcp_payload@[1],
{
    read_be16(tcp_payload[TCP_SRCPORT_OFFSET], tcp_payload[TCP_SRCPORT_OFFSET + 1])
}

pub fn tcp_dst_port(tcp_payload: &[u8]) -> (r: u16)
    requires
        4 <= tcp_payload@.len(),
    ensures
        r == dst_port_of(tcp_payload@),
        r == tcp_payload@[2] * 256 + tcp_payload@[3],
{
    read_be16(tcp_payload[TCP_DSTPORT_OFFSET], tcp_payload[TCP_DSTPORT_OFFSET + 1])
}

/// Source and destination of the TCP segment in an IPv4 packet.
pub fn tcp_ipv4_session_pair(ipv4_payload: &[u8]) -> (r: (([u8; 4], u16), ([u8; 4], u16)))
    requires
        20 <= ipv4_payload@.len(),
        ipv4_body_reaches(ipv4_payload@, 4),
    ensures
        r.0.0@ == ipv4_payload@.subrange(12, 16),
        r.0.1 == src_port_of(ipv4_body(ipv4_payload@)),
        r.1.0@ == ipv4_payload@.subrange(16, 20),
        r.1.1 == dst_port_of(ipv4_body(ipv4_payload@)),
        ({
            let offset = ipv4_payload@[0] % 16 * 4;
            &&& r.0.1 == ipv4_payload@[offset as int] * 256 + ipv4_payload@[offset + 1]
            &&& r.1.1 == ipv4_payload@[offset + 2] * 256 + ipv4_payload@[offset + 3]
        }),
{
    let src_ip: [u8; 4] = ipv4_src_ip(ipv4_payload);
    let dst_ip: [u8; 4] = ipv4_dst_ip(ipv4_payload);
    let (_ip_header, tcp_payload) = ipv4_split(ipv4_payload);
    let src_port: u16 = tcp_src_port(tcp_payload);
    let dst_port: u16 = tcp_dst_port(tcp_payload);

    ((src_ip, src_port), (dst_ip, dst_port))
}

/// How many bytes of data the TCP segment in an IPv4 packet carries, by the lengths that the two
/// headers give.
pub fn tcp_ipv4_data_len(ipv4_payload: &[u8]) -> (r: usize)
    requires
        4 <= ipv4_payload@.len(),
        ipv4_body_reaches(ipv4_payload@, 13),
        crate::ipv4_util::ipv4_header_len_spec(ipv4_payload@) + header_len_of(
            ipv4_body(ipv4_payload@),
        ) <= crate::ipv4_util::be16(ipv4_payload@[2], ipv4_payload@[3]),
    ensures
        r == crate::ipv4_util::be16(ipv4_payload@[2], ipv4_payload@[3])
            - crate::ipv4_util::ipv4_header_len_spec(ipv4_payload@) - header_len_of(
            ipv4_body(ipv4_payload@),
        ),
        ({
            let offset = ipv4_payload@[0] % 16 * 4;
            r + ipv4_payload@[offset + 12] / 16 * 4 + offset == ipv4_payload@[2] * 256
                + ipv4_payload@[3]
        }),
{
    let iphlen: usize = ipv4_header_len(ipv4_payload) as usize;
    let total_len: usize = ipv4_total_len(ipv4_payload) as usize;
    let (_ip_header, tcp_payload) = ipv4_split(ipv4_payload);
    let thlen: usize = tcp_header_len(tcp_payload);

    total_len - iphlen - thlen
}

/// Whether the TCP segment in an IPv4 packet has the SYN flag.
pub fn tcp_ipv4_syn(ipv4_payload: &[u8]) -> (r: bool)
    requires
        ipv4_body_reaches(ipv4_payload@, 14),
    ensures
        r == has_flag(ipv4_body(ipv4_payload@)[13], SYN_MASK),
        r == (ipv4_payload@[ipv4_payload@[0] % 16 * 4 + 13] / 2 % 2 == 1),
{
    let (_ip_header, tcp_payload) = ipv4_split(ipv4_payload);
    tcp_syn(tcp_payload)
}

/// The sequence number of the TCP segment in an IPv4 packet.
pub fn tcp_ipv4_seq(ipv4_payload: &[u8]) -> (r: u32)
    requires
        ipv4_body_reaches(ipv4_payload@, 8),
    ensures
        r == seq_of(ipv4_body(ipv4_payload@)),
        ({
            let offset = ipv4_payload@[0] % 16 * 4;
            r == ((ipv4_payload@[offset + 4] * 256 + ipv4_payload@[offset + 5]) * 256
                + ipv4_payload@[offset + 6]) * 256 + ipv4_payload@[offset + 7]
        }),
{
    let (_ip_header, tcp_payload) = ipv4_split(ipv4_payload);
    tcp_seq(tcp_payload)
}

pub fn tcp_flags(tcp_payload: &[u8]) -> (r: u8)
    requires
        13 < tcp_payload@.len(),
    ensures
        r == tcp_payload@[13],
{
    tcp_payload[TCP_FLAGS_IDX]
}

pub fn tcp_syn(tcp_payload: &[u8]) -> (r: bool)
    requires
        13 < tcp_payload@.len(),
    ensures
        r == has_flag(tcp_payload@[13], SYN_MASK),
        r == (tcp_payload@[13] / 2 % 2 == 1),
{
    let flags: u8 = tcp_flags(tcp_payload);
    assert((flags & 2 != 0) == (flags / 2 % 2 == 1)) by (bit_vector);
    flags & SYN_MASK != 0
}

pub fn tcp_fin(tcp_payload: &[u8]) -> (r: bool)
    requires
        13 < tcp_payload@.len(),
    ensures
        r == has_flag(tcp_payload@[13], FIN_MASK),
        r == (tcp_payload@[13] % 2 == 1),
{
    let flags: u8 = tcp_flags(tcp_payload);
    assert((flags & 1 != 0) == (flags % 2 == 1)) by (bit_vector);
    flags & FIN_MASK != 0
}

/// The checksum that belongs into `segment` when it travels under `ip_header`.
pub open spec fn tcp_checksum_of(ip_header: Seq<u8>, segment: Seq<u8>) -> int {
    0xFFFF - crate::ipv4_util::folded(
        crate::ipv4_util::checksum_sum(
            segment,
            ip_header.subrange(12, 16),
            ip_header.subrange(16, 20),
        ),
    )
}

/// `segment` with `checksum` in its checksum field.
pub open spec fn with_checksum(segment: Seq<u8>, checksum: int) -> Seq<u8> {
    segment.update(16, (checksum / 256) as u8).update(17, (checksum % 256) as u8)
}

/// Whether a checksum for `segment` under `ip_header` can be computed in 32 bits.
pub open spec fn checksum_fits(ip_header: Seq<u8>, segment: Seq<u8>) -> bool {
    &&& 20 <= ip_header.len()
    &&& 18 <= segment.len()
    &&& crate::ipv4_util::checksum_sum(
        segment,
        ip_header.subrange(12, 16),
        ip_header.subrange(16, 20),
    ) <= u32::MAX
}

/// Puts the checksum of the segment into its header.
pub fn update_checksum_tcp_ipv4(ip_header: &[u8], tcp_payload: &mut [u8])
    requires
        checksum_fits(ip_header@, old(tcp_payload)@),
    ensures
        final(tcp_payload)@ == with_checksum(
            old(tcp_payload)@,
            tcp_checksum_of(ip_header@, old(tcp_payload)@),
        ),
        final(tcp_payload)@.len() == old(tcp_payload)@.len(),
        forall|i: int|
            0 <= i < old(tcp_payload)@.len() && i != 16 && i != 17 ==> final(tcp_payload)@[i]
                == old(tcp_payload)@[i],
        (crate::ipv4_util::byte_sum(final(tcp_payload)@, final(tcp_payload)@.len() as int, -2)
            + 256 * ip_header@[12] + ip_header@[13] + 256 * ip_header@[14] + ip_header@[15] + 256
            * ip_header@[16] + ip_header@[17] + 256 * ip_header@[18] + ip_header@[19] + 6
            + final(tcp_payload)@.len() % 0x1_0000_0000) % 65535 == 0,
        final(tcp_payload)@[16] < 255 || final(tcp_payload)@[17] < 255,
{
    let ghost before = tcp_payload@;
    tcp_payload[TCP_CHECKSUM_OFFSET] = 0;
    tcp_payload[TCP_CHECKSUM_OFFSET + 1] = 0;
    proof {
        crate::ipv4_util::lemma_word_sum_ignores_skipped(
            before,
            tcp_payload@,
            crate::ipv4_util::word_count(before),
            crate::ipv4_util::TCP_CHECKSUM_WORD as int,
        );
    }
    let new_checksum: u16 = ipv4_checksum(
        tcp_payload,
        ipv4_src_ip(ip_header),
        ipv4_dst_ip(ip_header),
    );
    tcp_payload[TCP_CHECKSUM_OFFSET] = (new_checksum / 256) as u8;
    tcp_payload[TCP_CHECKSUM_OFFSET + 1] = (new_checksum % 256) as u8;
    assert(tcp_payload@ =~= with_checksum(before, new_checksum as int));
    proof {
        law_checksum_comes_out(ip_header@, before);
    }
}

/// The checksum of a segment does not depend on what its checksum field holds, so putting it in
/// twice is putting it in once.
pub proof fn law_checksum_ignores_its_field(ip_header: Seq<u8>, segment: Seq<u8>, checksum: int)
    requires
        18 <= segment.len(),
    ensures
        tcp_checksum_of(ip_header, with_checksum(segment, checksum)) == tcp_checksum_of(
            ip_header,
            segment,
        ),
        checksum_fits(ip_header, with_checksum(segment, checksum)) == checksum_fits(
            ip_header,
            segment,
        ),
        with_checksum(
            with_checksum(segment, checksum),
            tcp_checksum_of(ip_header, with_checksum(segment, checksum)),
        ) == with_checksum(segment, tcp_checksum_of(ip_header, segment)),
{
    let out = with_checksum(segment, checksum);
    crate::ipv4_util::lemma_word_sum_ignores_skipped(
        segment,
        out,
        crate::ipv4_util::word_count(segment),
        crate::ipv4_util::TCP_CHECKSUM_WORD as int,
    );
    assert(with_checksum(out, tcp_checksum_of(ip_header, segment)) =~= with_checksum(
        segment,
        tcp_checksum_of(ip_header, segment),
    ));
}

/// A receiver that sums pseudo header and segment, checksum field and all, gets all ones once the
/// checksum has been put in.
pub proof fn law_checksum_verifies(ip_header: Seq<u8>, segment: Seq<u8>)
    requires
        20 <= ip_header.len(),
        18 <= segment.len(),
    ensures
        ({
            let out = with_checksum(segment, tcp_checksum_of(ip_header, segment));
            crate::ipv4_util::folded(
                crate::ipv4_util::pseudo_header_sum(
                    ip_header.subrange(12, 16),
                    ip_header.subrange(16, 20),
                    out.len() as int,
                ) + crate::ipv4_util::be_word_sum(out, crate::ipv4_util::word_count(out), -1),
            ) == 0xFFFF
        }),
{
    let source = ip_header.subrange(12, 16);
    let destination = ip_header.subrange(16, 20);
    let checksum = tcp_checksum_of(ip_header, segment);
    let out = with_checksum(segment, checksum);
    let words = crate::ipv4_util::word_count(out);
    let skip = crate::ipv4_util::TCP_CHECKSUM_WORD as int;
    let sum = crate::ipv4_util::checksum_sum(segment, source, destination);
    crate::ipv4_util::lemma_word_sum_ignores_skipped(segment, out, words, skip);
    crate::ipv4_util::lemma_word_sum_with_skipped(out, words, skip);
    crate::ipv4_util::lemma_word_sum_monotone(segment, 0, words, skip);
    assert(0 <= sum);
    crate::ipv4_util::lemma_complement_folds_to_ones(sum);
    assert(out[16] == checksum / 256 && out[17] == checksum % 256);
    assert(crate::ipv4_util::be_word(out, skip) == checksum);
}

/// The checksum changes nothing but its two bytes, and what a receiver adds up, byte by byte, over
/// addresses, protocol number, length and segment, leaves no remainder by 65535. The checksum is
/// never all ones.
pub proof fn law_checksum_comes_out(ip_header: Seq<u8>, segment: Seq<u8>)
    requires
        20 <= ip_header.len(),
        18 <= segment.len(),
    ensures
        ({
            let out = with_checksum(segment, tcp_checksum_of(ip_header, segment));
            &&& out.len() == segment.len()
            &&& forall|i: int|
                0 <= i < segment.len() && i != 16 && i != 17 ==> out[i] == segment[i]
            &&& (crate::ipv4_util::byte_sum(out, out.len() as int, -2) + 256 * ip_header[12]
                + ip_header[13] + 256 * ip_header[14] + ip_header[15] + 256 * ip_header[16]
                + ip_header[17] + 256 * ip_header[18] + ip_header[19] + 6 + out.len()
                % 0x1_0000_0000) % 65535 == 0
            &&& out[16] < 255 || out[17] < 255
        }),
{
    let source = ip_header.subrange(12, 16);
    let destination = ip_header.subrange(16, 20);
    let checksum = tcp_checksum_of(ip_header, segment);
    let out = with_checksum(segment, checksum);
    let n = segment.len() as int;
    let sum = crate::ipv4_util::checksum_sum(segment, source, destination);
    let f = crate::ipv4_util::folded(sum);
    crate::ipv4_util::law_word_sum_has_every_byte(segment, 8);
    crate::ipv4_util::lemma_byte_sum_agrees(segment, out, n, 16);
    crate::ipv4_util::lemma_byte_sum_gap(out, n, 16);
    crate::ipv4_util::lemma_word_sum_monotone(
        segment,
        0,
        crate::ipv4_util::word_count(segment),
        8,
    );
    crate::ipv4_util::law_folded(sum);
    assert(out[16] == checksum / 256 && out[17] == checksum % 256);
    assert(256 * out[16] + out[17] == checksum);
    assert(sum + (0xFFFF - f) == sum - f + 0xFFFF);
}

/// A segment that an IPv4 packet can hold never overflows the sum.
pub proof fn law_checksum_fits_every_packet(ip_header: Seq<u8>, segment: Seq<u8>)
    requires
        20 <= ip_header.len(),
        18 <= segment.len() <= u16::MAX,
    ensures
        checksum_fits(ip_header, segment),
{
    crate::ipv4_util::lemma_word_sum_bounded(
        segment,
        crate::ipv4_util::word_count(segment),
        crate::ipv4_util::TCP_CHECKSUM_WORD as int,
    );
}

/// Each flag has a bit of its own, from FIN to CWR, and there is no other.
pub proof fn law_flags_are_bits(flags: u8)
    ensures
        has_flag(flags, FIN_MASK) <==> flags % 2 == 1,
        has_flag(flags, SYN_MASK) <==> flags / 2 % 2 == 1,
        has_flag(flags, RST_MASK) <==> flags / 4 % 2 == 1,
        has_flag(flags, PSH_MASK) <==> flags / 8 % 2 == 1,
        has_flag(flags, ACK_MASK) <==> flags / 16 % 2 == 1,
        has_flag(flags, URG_MASK) <==> flags / 32 % 2 == 1,
        has_flag(flags, ECE_MASK) <==> flags / 64 % 2 == 1,
        has_flag(flags, CWR_MASK) <==> flags / 128 == 1,
{
    assert((flags & 0x1 != 0 <==> flags % 2 == 1) && (flags & 0x2 != 0 <==> flags / 2 % 2 == 1) && (
    flags & 0x4 != 0 <==> flags / 4 % 2 == 1) && (flags & 0x8 != 0 <==> flags / 8 % 2 == 1))
        by (bit_vector);
    assert((flags & 0x10 != 0 <==> flags / 16 % 2 == 1) && (flags & 0x20 != 0 <==> flags / 32 % 2
        == 1) && (flags & 0x40 != 0 <==> flags / 64 % 2 == 1) && (flags & 0x80 != 0 <==> flags / 128
        == 1)) by (bit_vector);
}

} // verus!
