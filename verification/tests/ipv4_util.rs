use snarf::ipv4_util::{
    finalize_checksum, ipv4_checksum, ipv4_dst_ip, ipv4_header_len, ipv4_split, ipv4_src_ip,
    ipv4_total_len, ipv4_word_sum, read_be16, read_be32, sum_be_words,
};

const PACKET: [u8; 24] = [
    0x45, 0x00, 0x00, 0x3c, 0x57, 0x2e, 0x40, 0x00, 0x40, 0x06, 0xe5, 0x8b, 0x7f, 0x00, 0x00, 0x01,
    0xc0, 0xa8, 0x01, 0x02, 0xaa, 0xbb, 0xcc, 0xdd,
];

#[test]
fn numbers_in_network_order() {
    assert_eq!(read_be16(0x12, 0x34), 0x1234);
    assert_eq!(read_be32(0x12, 0x34, 0x56, 0x78), 0x1234_5678);
}

#[test]
fn address_words() {
    assert_eq!(ipv4_word_sum([192, 168, 1, 2]), 0xC0A8 + 0x0102);
    assert_eq!(ipv4_word_sum([255, 255, 255, 255]), 0x1FFFE);
}

#[test]
fn words_are_summed_without_the_skipped_one() {
    assert_eq!(sum_be_words(&[], 8), 0);
    assert_eq!(sum_be_words(&[1, 2, 3, 4], 8), 0x0102 + 0x0304);
    assert_eq!(sum_be_words(&[1, 2, 3, 4], 1), 0x0102);
}

#[test]
fn odd_byte_counts_as_the_high_one() {
    assert_eq!(sum_be_words(&[1, 2, 3], 8), 0x0102 + 0x0300);
    assert_eq!(sum_be_words(&[1, 2, 3], 1), 0x0102);
}

#[test]
fn sums_are_folded_and_inverted() {
    assert_eq!(finalize_checksum(0), 0xFFFF);
    assert_eq!(finalize_checksum(0xFFFF), 0);
    assert_eq!(finalize_checksum(0x1_0000), 0xFFFE);
    assert_eq!(finalize_checksum(0x2_FFFD), 0);
    assert_eq!(finalize_checksum(0xFFFF_FFFF), 0);
}

#[test]
fn checksum_of_a_short_segment() {
    // 0x0001 + 0x0002 for the addresses, 6 for the protocol, 2 for the length, 0x0304 for the data.
    assert_eq!(ipv4_checksum(&[3, 4], [0, 0, 0, 1], [0, 0, 0, 2]), 0xFFFF - 0x030F);
}

#[test]
fn header_fields() {
    assert_eq!(ipv4_header_len(&PACKET), 20);
    assert_eq!(ipv4_total_len(&PACKET), 60);
    assert_eq!(ipv4_src_ip(&PACKET), [127, 0, 0, 1]);
    assert_eq!(ipv4_dst_ip(&PACKET), [192, 168, 1, 2]);
    let (header, body) = ipv4_split(&PACKET);
    assert_eq!(header.len(), 20);
    assert_eq!(body, &[0xaa, 0xbb, 0xcc, 0xdd]);
}

#[test]
fn header_with_options() {
    let mut packet = PACKET;
    packet[0] = 0x46;
    assert_eq!(ipv4_header_len(&packet), 24);
}
