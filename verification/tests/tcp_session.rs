use std::time::Instant;

use snarf::tcp::{PlungeResult, RewindInput, RiseInput, SnarfTcpError, TcpSession, WindInput};
use snarf::tcp_tracker::{
    TcpPeerTracker, TcpTrackerPlungeResult, TcpTrackerRewindInput, TcpTrackerRiseInput,
    FUTURE_QUEUE_LIMIT, TRACKER_BUFFER_LEN,
};
use snarf::tcp_util::{ACK_MASK, RST_MASK, SYN_MASK};
use snarf::{Ipv4Type, TcpAddr, TcpSessionMap, TransportPacketParent};

#[derive(Debug, PartialEq)]
struct Packet {
    id: u64,
    net: Vec<u8>,
    segment: Vec<u8>,
}

impl TransportPacketParent for Packet {
    fn split(&mut self) -> (&[u8], &mut [u8]) {
        (&self.net, &mut self.segment)
    }
}

const CLIENT: ([u8; 4], u16) = ([10, 0, 0, 1], 4000);
const SERVER: ([u8; 4], u16) = ([10, 0, 0, 2], 80);

fn segment(seq: u32, flags: u8, data: &[u8]) -> Vec<u8> {
    let mut segment = vec![0; 20];
    segment[4..8].copy_from_slice(&seq.to_be_bytes());
    segment[12] = 5 << 4;
    segment[13] = flags;
    segment.extend_from_slice(data);
    segment
}

fn packet(id: u64, seq: u32, data: &[u8]) -> Packet {
    Packet { id, net: vec![0; 20], segment: segment(seq, ACK_MASK, data) }
}

/// Takes data up as the next of its direction.
fn append(tracker: &mut TcpPeerTracker<Packet>, seq: u32, data: &[u8]) {
    let mut copy = data.to_vec();
    let input = tracker.plunge(ACK_MASK, seq, &mut copy).unwrap();
    let (rise_input, _) = tracker.wind(input).unwrap();
    let mut room = tracker.rise(rise_input.unwrap()).unwrap();
    room.writable.copy_from_slice(&copy);
}

#[test]
fn first_packet_starts_the_stream() {
    let mut tracker: TcpPeerTracker<Packet> = TcpPeerTracker::new();
    let mut data = [1, 2, 3];
    let input = tracker.plunge(SYN_MASK, 1000, &mut data).unwrap();
    assert_eq!(input.start_seq, 1001);
    assert_eq!(input.syn_seq, Some(1000));
    assert_eq!(input.result.new_data_len, 3);
    assert!(!input.result.is_future && !input.result.closing && !input.result.new_connection);
    let (rise_input, rewind_input) = tracker.wind(input).unwrap();
    assert_eq!(rise_input.unwrap().new_data_len, 3);
    assert!(!rewind_input.unwrap().init);
    assert_eq!(tracker.buffer.seq, 1001);
    {
        let mut room = tracker.rise(rise_input.unwrap()).unwrap();
        room.writable.copy_from_slice(&data);
    }
    assert_eq!(tracker.buffer.seq, 1004);
    assert_eq!(tracker.buffer.buffer[..3], [1, 2, 3]);
}

#[test]
fn retransmission_carries_what_passed() {
    let mut tracker: TcpPeerTracker<Packet> = TcpPeerTracker::new();
    append(&mut tracker, 500, &[1, 2, 3, 4]);
    let mut data = [9, 9, 9, 5, 6];
    let input = tracker.plunge(ACK_MASK, 501, &mut data).unwrap();
    assert_eq!(data, [2, 3, 4, 5, 6]);
    assert_eq!(input.result.retransmitted, 3);
    assert_eq!(input.result.new_data_len, 2);
}

#[test]
fn wholly_repeated_data_adds_nothing() {
    let mut tracker: TcpPeerTracker<Packet> = TcpPeerTracker::new();
    append(&mut tracker, 500, &[1, 2, 3, 4]);
    let mut data = [9, 9];
    let input = tracker.plunge(ACK_MASK, 501, &mut data).unwrap();
    assert_eq!(data, [2, 3]);
    assert_eq!(input.result.new_data_len, 0);
    assert!(tracker.wind(input).unwrap().0.is_none());
}

#[test]
fn data_before_the_stream_is_left_alone() {
    let mut tracker: TcpPeerTracker<Packet> = TcpPeerTracker::new();
    append(&mut tracker, 500, &[1, 2]);
    let mut data = [7, 8];
    let input = tracker.plunge(ACK_MASK, 498, &mut data).unwrap();
    assert_eq!(data, [7, 8]);
    assert_eq!(input.result.retransmitted, 2);
    assert_eq!(input.result.new_data_len, 0);
    assert!(!input.result.is_future);
}

#[test]
fn data_across_the_start_of_the_stream() {
    let mut tracker: TcpPeerTracker<Packet> = TcpPeerTracker::new();
    append(&mut tracker, 500, &[1, 2]);
    let mut data = [7, 8, 9];
    let input = tracker.plunge(ACK_MASK, 498, &mut data).unwrap();
    assert_eq!(data, [7, 8, 1]);
    assert_eq!(input.result.retransmitted, 3);
    assert_eq!(input.result.new_data_len, 0);
    let mut data = [7, 8, 9, 9, 3, 4];
    let input = tracker.plunge(ACK_MASK, 498, &mut data).unwrap();
    assert_eq!(data, [7, 8, 1, 2, 3, 4]);
    assert_eq!(input.result.retransmitted, 4);
    assert_eq!(input.result.new_data_len, 2);
}

#[test]
fn data_from_long_ago_is_not_the_streams() {
    let mut tracker: TcpPeerTracker<Packet> = TcpPeerTracker::new();
    append(&mut tracker, 1_000_000, &[1, 2]);
    let mut data = [7, 8];
    let input = tracker.plunge(ACK_MASK, 1000, &mut data).unwrap();
    assert_eq!(data, [7, 8]);
    assert_eq!(input.result.retransmitted, 0);
    assert_eq!(input.result.new_data_len, 0);
}

#[test]
fn data_ahead_is_future() {
    let mut tracker: TcpPeerTracker<Packet> = TcpPeerTracker::new();
    append(&mut tracker, 500, &[1, 2]);
    let input = tracker.plunge(ACK_MASK, 503, &mut [7]).unwrap();
    assert!(input.result.is_future);
    let (rise_input, rewind_input) = tracker.wind(input).unwrap();
    assert!(rise_input.is_none() && rewind_input.is_none());
    assert_eq!(tracker.buffer.seq, 502);
    assert!(!tracker.plunge(ACK_MASK, 503, &mut []).unwrap().result.is_future);
    assert!(!tracker.plunge(RST_MASK, 503, &mut [7]).unwrap().result.is_future);
}

#[test]
fn other_syn_opens_another_connection() {
    let mut tracker: TcpPeerTracker<Packet> = TcpPeerTracker::new();
    let input = tracker.plunge(SYN_MASK, 1000, &mut []).unwrap();
    tracker.wind(input).unwrap();
    assert!(!tracker.plunge(SYN_MASK, 1000, &mut []).unwrap().result.new_connection);
    let input = tracker.plunge(SYN_MASK | RST_MASK, 5000, &mut []).unwrap();
    assert!(input.result.new_connection);
    assert!(!input.result.closing);
}

#[test]
fn reset_is_closing() {
    let mut tracker: TcpPeerTracker<Packet> = TcpPeerTracker::new();
    assert!(tracker.plunge(RST_MASK, 0, &mut []).unwrap().result.closing);
}

#[test]
fn too_much_data_is_refused() {
    let mut tracker: TcpPeerTracker<Packet> = TcpPeerTracker::new();
    let mut data = vec![1; TRACKER_BUFFER_LEN + 1];
    let refused = tracker.plunge(ACK_MASK, 0, &mut data);
    assert!(matches!(refused, Err(SnarfTcpError::PacketTooBigError)));
    let mut input = tracker.plunge(ACK_MASK, 0, &mut data[..1]).unwrap();
    input.result.new_data_len = TRACKER_BUFFER_LEN + 1;
    assert!(matches!(tracker.wind(input), Err(SnarfTcpError::PacketTooBigError)));
    append(&mut tracker, 0, &[1]);
    let refused = tracker.rise(TcpTrackerRiseInput { new_data_len: TRACKER_BUFFER_LEN + 1 });
    assert!(matches!(refused, Err(SnarfTcpError::PacketTooBigError)));
}

#[test]
fn as_much_data_as_is_remembered_is_taken() {
    let mut tracker: TcpPeerTracker<Packet> = TcpPeerTracker::new();
    append(&mut tracker, 100, &vec![3; TRACKER_BUFFER_LEN]);
    assert_eq!(tracker.buffer.seq, 100 + TRACKER_BUFFER_LEN as u32);
    assert_eq!(tracker.seen, TRACKER_BUFFER_LEN);
}

#[test]
fn held_packets_are_let_go_in_the_order_of_the_stream() {
    let mut tracker: TcpPeerTracker<Packet> = TcpPeerTracker::new();
    append(&mut tracker, 100, &[1]);
    tracker.add_future_payload(packet(0, 105, &[6, 7])).unwrap();
    tracker.add_future_payload(packet(1, 103, &[4, 5])).unwrap();
    assert!(tracker.update_future_queue().is_empty());
    append(&mut tracker, 101, &[2, 3]);
    {
        let mut released = tracker.update_future_queue();
        assert_eq!(released.iter().map(|r| r.rf.id).collect::<Vec<u64>>(), [1, 0]);
        assert_eq!(released[0].header_len, 20);
        assert_eq!(released[0].new_data_len, 2);
        released[0].writable.copy_from_slice(&[4, 5]);
        released[1].writable.copy_from_slice(&[6, 7]);
    }
    assert_eq!(tracker.buffer.seq, 107);
    assert_eq!(tracker.buffer.buffer[..7], [1, 2, 3, 4, 5, 6, 7]);
    assert!(tracker.future_queue.is_empty());
}

#[test]
fn overlap_of_a_held_packet_is_put_in_place() {
    let mut tracker: TcpPeerTracker<Packet> = TcpPeerTracker::new();
    append(&mut tracker, 100, &[1]);
    tracker.add_future_payload(packet(0, 102, &[9, 9, 4])).unwrap();
    append(&mut tracker, 101, &[1, 2, 3]);
    let released = tracker.update_future_queue();
    assert_eq!(released.len(), 1);
    assert_eq!(released[0].rf.segment[20..], [2, 3, 4]);
    assert_eq!(released[0].new_data_len, 1);
    assert_eq!(released[0].writable.len(), 1);
}

#[test]
fn full_queue_overflows() {
    let mut tracker: TcpPeerTracker<Packet> = TcpPeerTracker::new();
    append(&mut tracker, 100, &[1]);
    for i in 0..FUTURE_QUEUE_LIMIT {
        tracker.add_future_payload(packet(i as u64, 200, &[1])).unwrap();
    }
    let (given_back, error) = tracker.add_future_payload(packet(777, 300, &[1])).unwrap_err();
    assert_eq!(given_back, packet(777, 300, &[1]));
    assert!(matches!(error, SnarfTcpError::FutureQueueOverflow));
}

#[test]
fn drained_packets_add_nothing() {
    let mut tracker: TcpPeerTracker<Packet> = TcpPeerTracker::new();
    append(&mut tracker, 100, &[1]);
    tracker.add_future_payload(packet(0, 300, &[1])).unwrap();
    tracker.add_future_payload(packet(1, 200, &[1])).unwrap();
    let drained = tracker.drain_nowrite_future_queue();
    assert_eq!(drained.iter().map(|r| r.rf.id).collect::<Vec<u64>>(), [0, 1]);
    assert!(drained.iter().all(|r| r.new_data_len == 0 && r.writable.is_empty()));
    assert!(tracker.future_queue.is_empty());
    assert_eq!(tracker.buffer.seq, 101);
}

#[test]
fn first_sender_is_the_client() {
    let before = Instant::now();
    let mut session: TcpSession<Ipv4Type, Packet> = TcpSession::default();
    assert!(session.created >= before && session.created <= Instant::now());
    assert!(!session.src_init && !session.handshake_done);
    let input = session
        .plunge_tcp_packet(CLIENT.0, CLIENT.1, &mut segment(10, SYN_MASK, &[]))
        .unwrap();
    assert!(input.is_client);
    assert!(session.src_init);
    assert_eq!((session.src_net, session.src_port), CLIENT);
    let input = session
        .plunge_tcp_packet(SERVER.0, SERVER.1, &mut segment(10, SYN_MASK, &[]))
        .unwrap();
    assert!(!input.is_client);
    assert_eq!((session.src_net, session.src_port), CLIENT);
}

#[test]
fn header_may_be_as_short_as_it_says() {
    for header_len in [0usize, 4, 8, 12] {
        let mut session: TcpSession<Ipv4Type, Packet> = TcpSession::default();
        let mut short = segment(10, ACK_MASK, &[1, 2]);
        short[12] = (header_len as u8 / 4) << 4;
        let input = session.plunge_tcp_packet(CLIENT.0, CLIENT.1, &mut short.clone()).unwrap();
        assert!(input.is_client);
        assert!(session.src_init);
        assert_eq!((session.src_net, session.src_port), CLIENT);
        assert_eq!(input.tracker_wind_input.result.new_data_len, short.len() - header_len);
        let input = session.plunge_tcp_packet(SERVER.0, SERVER.1, &mut short).unwrap();
        assert!(!input.is_client);
        assert_eq!((session.src_net, session.src_port), CLIENT);
    }
}

#[test]
fn directions_are_apart() {
    let mut session: TcpSession<Ipv4Type, Packet> = TcpSession::default();
    let input = session
        .plunge_tcp_packet(CLIENT.0, CLIENT.1, &mut segment(10, ACK_MASK, &[1, 2]))
        .unwrap();
    let (rise_input, _) = session.wind(input).unwrap();
    {
        let mut room = session.rise_tcp_packet(true, rise_input.unwrap()).unwrap();
        room.writable.copy_from_slice(&[1, 2]);
    }
    assert_eq!(session.src_tracker.buffer.seq, 12);
    assert!(!session.dst_tracker.init);
    let input = session
        .plunge_tcp_packet(SERVER.0, SERVER.1, &mut segment(900, ACK_MASK, &[3]))
        .unwrap();
    session.wind(input).unwrap();
    assert_eq!(session.dst_tracker.buffer.seq, 900);
    assert_eq!(session.src_tracker.buffer.seq, 12);
}

#[test]
fn session_puts_retransmitted_bytes_in_place() {
    let mut session: TcpSession<Ipv4Type, Packet> = TcpSession::default();
    let input = session
        .plunge_tcp_packet(CLIENT.0, CLIENT.1, &mut segment(10, ACK_MASK, &[1, 2]))
        .unwrap();
    let (rise_input, _) = session.wind(input).unwrap();
    {
        let mut room = session.rise_tcp_packet(true, rise_input.unwrap()).unwrap();
        room.writable.copy_from_slice(&[5, 6]);
    }
    let mut again = segment(10, ACK_MASK, &[1, 2]);
    session.plunge_tcp_packet(CLIENT.0, CLIENT.1, &mut again).unwrap();
    assert_eq!(again, segment(10, ACK_MASK, &[5, 6]));
}

#[test]
fn session_refuses_too_much_data() {
    let mut session: TcpSession<Ipv4Type, Packet> = TcpSession::default();
    let mut big = segment(10, ACK_MASK, &vec![0; TRACKER_BUFFER_LEN + 1]);
    let refused = session.plunge_tcp_packet(CLIENT.0, CLIENT.1, &mut big);
    assert!(matches!(refused, Err(SnarfTcpError::PacketTooBigError)));
}

#[test]
fn session_holds_back_and_lets_go() {
    let mut session: TcpSession<Ipv4Type, Packet> = TcpSession::default();
    let input = session
        .plunge_tcp_packet(CLIENT.0, CLIENT.1, &mut segment(10, ACK_MASK, &[]))
        .unwrap();
    session.wind(input).unwrap();
    session.add_future_payload(true, packet(3, 11, &[2])).unwrap();
    assert!(session.verdict_kept(true).is_empty());
    assert!(session.drain_nowrite_future_queue(false).is_empty());
    let drained = session.drain_nowrite_future_queue(true);
    assert_eq!(drained.len(), 1);
    assert_eq!(drained[0].rf, packet(3, 11, &[2]));
}

#[test]
fn inputs_keep_their_fields() {
    let result = TcpTrackerPlungeResult {
        retransmitted: 1,
        new_data_len: 2,
        is_future: false,
        closing: true,
        new_connection: false,
    };
    let plunged = PlungeResult::new(true, result);
    assert_eq!(plunged.tracker_result().new_data_len, 2);
    assert!(plunged.is_client);
    let mut tracker: TcpPeerTracker<Packet> = TcpPeerTracker::new();
    let input = WindInput::new(false, tracker.plunge(ACK_MASK, 77, &mut []).unwrap());
    assert_eq!(input.tracker_wind_input.start_seq, 77);
    assert!(!input.is_client);
    let rise = RiseInput::from_tracker(true, Some(TcpTrackerRiseInput { new_data_len: 4 }));
    assert_eq!(rise.unwrap().tracker_rise_input.new_data_len, 4);
    assert!(RiseInput::from_tracker(true, None).is_none());
    let rewind = TcpTrackerRewindInput { init: true, seq: 9, syn_seq: None };
    let rewind = RewindInput::from_tracker(false, Some(rewind)).unwrap();
    assert_eq!(rewind.tracker_rewind_input.seq, 9);
    assert!(RewindInput::from_tracker(false, None).is_none());
}

#[test]
fn both_directions_have_one_session() {
    let mut sessions: TcpSessionMap<Ipv4Type, Packet> = TcpSessionMap::new();
    let client = TcpAddr::new(CLIENT.0, CLIENT.1);
    let server = TcpAddr::new(SERVER.0, SERVER.1);
    let other = TcpAddr::new(SERVER.0, SERVER.1 + 1);
    assert_eq!(sessions.get_session(client, server).session_id, 0);
    assert_eq!(sessions.get_session(server, client).session_id, 0);
    assert_eq!(sessions.get_session(client, other).session_id, 1);
    assert_eq!(sessions.id_counter, 2);
}

#[test]
fn numbers_are_not_used_again() {
    let mut sessions: TcpSessionMap<Ipv4Type, Packet> = TcpSessionMap::default();
    let client = TcpAddr::new(CLIENT.0, CLIENT.1);
    let server = TcpAddr::new(SERVER.0, SERVER.1);
    sessions.get_session(client, server).session.src_port = 5;
    let removed = sessions.remove_session(server, client).unwrap();
    assert_eq!((removed.session_id, removed.session.src_port), (0, 5));
    assert!(sessions.remove_session(client, server).is_none());
    let again = sessions.get_session(client, server);
    assert_eq!((again.session_id, again.session.src_port), (1, 0));
}

#[test]
fn ends_are_ordered_by_address_and_port() {
    let a = TcpAddr::new([1, 2, 3, 4], 9);
    let b = TcpAddr::new([1, 2, 3, 5], 1);
    let c = TcpAddr::new([1, 2, 3, 4], 10);
    assert!(a.is_before(&b) && a.is_before(&c) && c.is_before(&b));
    assert!(!a.is_before(&a) && !b.is_before(&a));
    assert!(a.same(&a) && !a.same(&c) && !a.same(&b));
    assert!(a < b && a < c && c < b);
}
