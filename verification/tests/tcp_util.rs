use snarf::ipv4_util::{finalize_checksum, ipv4_word_sum, sum_be_words};
use snarf::tcp_util::{
    tcp_dst_port, tcp_fin, tcp_flags, tcp_header_len, tcp_ipv4_data_len, tcp_ipv4_seq,
    tcp_ipv4_session_pair, tcp_ipv4_syn, tcp_seq, tcp_src_port, tcp_syn, update_checksum_tcp_ipv4,
    ACK_MASK, FIN_MASK, SYN_MASK,
};

fn from_hex(s: &str) -> Vec<u8> {
    assert!(s.len() % 2 == 0);
    s.as_bytes()
        .chunks_exact(2)
        .map(|c| {
            let s = std::str::from_utf8(c).unwrap();
            u8::from_str_radix(s, 16).unwrap()
        })
        .collect::<Vec<u8>>()
}

#[test]
fn test_update_checksum_tcp_ipv4() {
    let ip_header = from_hex("4500003c572e40004006e58b7f0000017f000001");
    let mut tcp_payload = from_hex(
        "d36420fc958a199a00000000a002ffd7876500000204ffd70402080ac8fd22cd0000000001030307",
    );
    // --------------------------------------------------------- ^^^^ This checksum is wrong/outdated

    assert_ne!(tcp_payload[16..18], [0xc0, 0xb1]);

    update_checksum_tcp_ipv4(&ip_header, &mut tcp_payload);
    assert_eq!(tcp_payload[16..18], [0xc0, 0xb1]);
}

fn packet() -> Vec<u8> {
    let mut packet = from_hex("4500003c572e40004006e58b7f0000017f000001");
    packet.extend(from_hex(
        "d36420fc958a199a00000000a002ffd7876500000204ffd70402080ac8fd22cd0000000001030307",
    ));
    packet
}

#[test]
fn segment_fields() {
    let packet = packet();
    let segment = &packet[20..];
    assert_eq!(tcp_header_len(segment), 40);
    assert_eq!(tcp_seq(segment), 0x958a_199a);
    assert_eq!(tcp_src_port(segment), 0xd364);
    assert_eq!(tcp_dst_port(segment), 0x20fc);
    assert_eq!(tcp_flags(segment), SYN_MASK);
    assert!(tcp_syn(segment));
    assert!(!tcp_fin(segment));
}

#[test]
fn fin_is_its_own_flag() {
    let mut packet = packet();
    packet[20 + 13] = FIN_MASK | ACK_MASK;
    assert!(tcp_fin(&packet[20..]));
    assert!(!tcp_syn(&packet[20..]));
}

#[test]
fn segment_in_a_packet() {
    let packet = packet();
    assert_eq!(
        tcp_ipv4_session_pair(&packet),
        (([127, 0, 0, 1], 0xd364), ([127, 0, 0, 1], 0x20fc))
    );
    assert_eq!(tcp_ipv4_data_len(&packet), 0);
    assert!(tcp_ipv4_syn(&packet));
    assert_eq!(tcp_ipv4_seq(&packet), 0x958a_199a);
}

#[test]
fn checksum_does_not_depend_on_the_old_one() {
    let packet = packet();
    let mut a = packet[20..].to_vec();
    let mut b = a.clone();
    b[16] = 0xff;
    b[17] = 0x01;
    update_checksum_tcp_ipv4(&packet[..20], &mut a);
    update_checksum_tcp_ipv4(&packet[..20], &mut b);
    assert_eq!(a, b);
}

#[test]
fn checksum_makes_the_sum_come_out() {
    let packet = packet();
    let mut segment = packet[20..].to_vec();
    update_checksum_tcp_ipv4(&packet[..20], &mut segment);
    let sum = ipv4_word_sum([127, 0, 0, 1]) * 2
        + 6
        + segment.len() as u32
        + sum_be_words(&segment, usize::MAX);
    assert_eq!(finalize_checksum(sum), 0);
}

#[test]
fn checksum_touches_nothing_else() {
    let packet = packet();
    let mut segment = packet[20..].to_vec();
    update_checksum_tcp_ipv4(&packet[..20], &mut segment);
    assert_eq!(segment[..16], packet[20..36]);
    assert_eq!(segment[18..], packet[38..]);
}

#[test]
fn checksum_of_the_longest_packet() {
    let packet = packet();
    let mut segment = vec![0xff; 65535];
    update_checksum_tcp_ipv4(&packet[..20], &mut segment);
    let sum = ipv4_word_sum([127, 0, 0, 1]) * 2 + 6 + 65535 + sum_be_words(&segment, usize::MAX);
    assert_eq!(finalize_checksum(sum), 0);
}
