use std::cell::RefCell;
use std::rc::Rc;

use etherparse::{PacketBuilder, TcpHeader, TcpHeaderSlice};

use snarf::tcp_tracker::FUTURE_QUEUE_LIMIT;
use snarf::{
    verdict_to_send, ApplicationDataSnarfHandler, InterceptAction, InterceptLoop, InterceptVerdict,
    NetworkSnarfHandler, NetworkSnarfSpy, NfqMessage, NfqMessageParent, NfqTcp, NoSpy, SlicedNet,
    SnarfInterceptVerdict, SnarfNfqIpv4, SnarfNfqIpv4TcpOptions, SnarfNfqNetOptions, SnarfTcp,
    TransportPacketParent, TransportSnarfSpy,
};

const CLIENT: [u8; 4] = [10, 0, 0, 1];
const SERVER: [u8; 4] = [10, 0, 0, 2];

/// Remembers what it was handed, turns letters into capitals, and drops what holds an exclamation
/// mark.
#[derive(Clone, Default)]
struct Shouter {
    calls: Rc<RefCell<Vec<(u64, bool, i64, Vec<u8>)>>>,
}

impl ApplicationDataSnarfHandler for Shouter {
    fn on_data(
        &mut self,
        session_id: u64,
        is_client: bool,
        counter: i64,
        data: &mut [u8],
    ) -> InterceptVerdict {
        self.calls.borrow_mut().push((session_id, is_client, counter, data.to_vec()));
        data.make_ascii_uppercase();
        if data.contains(&b'!') {
            InterceptVerdict::Drop
        } else {
            InterceptVerdict::Accept
        }
    }
}

/// Writes down what it sees.
#[derive(Clone, Default)]
struct Scribe {
    lines: Rc<RefCell<Vec<String>>>,
}

impl Scribe {
    fn write(&self, line: String) {
        self.lines.borrow_mut().push(line);
    }

    fn take(&self) -> Vec<String> {
        self.lines.borrow_mut().drain(..).collect()
    }
}

fn word(verdict: &InterceptVerdict) -> &'static str {
    match verdict {
        InterceptVerdict::Accept => "accept",
        InterceptVerdict::Drop => "drop",
    }
}

fn text(data: &[u8]) -> String {
    String::from_utf8(data.to_vec()).unwrap()
}

impl NetworkSnarfSpy for Scribe {
    fn before(&mut self, net_header: &[u8], data: &[u8]) {
        self.write(format!("net before {} {}", net_header.len(), text(&data[20..])));
    }
    fn after(&mut self, net_header: &[u8], data: &[u8], verdict: &InterceptVerdict) {
        self.write(format!(
            "net after {} {} {}",
            net_header.len(),
            text(&data[20..]),
            word(verdict)
        ));
    }
}

impl TransportSnarfSpy for Scribe {
    fn before(&mut self, net_header: &[u8], header: &[u8], data: &[u8], id: u64) {
        self.write(format!("before {} {} {} {}", net_header.len(), header.len(), text(data), id));
    }
    fn after(
        &mut self,
        _net_header: &[u8],
        header: &[u8],
        is_client: bool,
        data: &[u8],
        id: u64,
        verdict: &InterceptVerdict,
    ) {
        self.write(format!(
            "after {} {} {} {} {}",
            header.len(),
            is_client,
            text(data),
            id,
            word(verdict)
        ));
    }
    fn close(&mut self, is_client: bool, id: u64) {
        self.write(format!("close {} {}", is_client, id));
    }
}

type Handler = SnarfNfqIpv4<NfqTcp<Shouter, Scribe>, Scribe>;

struct Setup {
    handler: Handler,
    shouter: Shouter,
    scribe: Scribe,
    net_scribe: Scribe,
}

fn setup() -> Setup {
    let shouter = Shouter::default();
    let scribe = Scribe::default();
    let net_scribe = Scribe::default();
    let tcp = SnarfTcp::new_from(shouter.clone(), scribe.clone());
    let handler = SnarfNfqIpv4::new(tcp, net_scribe.clone());
    Setup { handler, shouter, scribe, net_scribe }
}

#[derive(Clone, Copy)]
enum Kind {
    Syn,
    Data,
    Rst,
}

/// A packet between the two ends, with an empty checksum.
fn message(id: u32, from_client: bool, kind: Kind, seq: u32, data: &[u8]) -> NfqMessage {
    let (src, dst, src_port, dst_port) =
        if from_client { (CLIENT, SERVER, 4000, 80) } else { (SERVER, CLIENT, 80, 4000) };
    let mut header = TcpHeader::new(src_port, dst_port, seq, 1000);
    match kind {
        Kind::Syn => header.syn = true,
        Kind::Data => header.ack = true,
        Kind::Rst => header.rst = true,
    }
    let mut payload = vec![];
    PacketBuilder::ipv4(src, dst, 64).tcp_header(header).write(&mut payload, data).unwrap();
    payload[36] = 0;
    payload[37] = 0;
    let original_len = payload.len();
    NfqMessage { packet_id: id, payload, original_len }
}

fn checksum_is_right(message: &NfqMessage) -> bool {
    let header = TcpHeaderSlice::from_slice(&message.payload[20..]).unwrap();
    let addresses = (
        [message.payload[12], message.payload[13], message.payload[14], message.payload[15]],
        [message.payload[16], message.payload[17], message.payload[18], message.payload[19]],
    );
    let data = &message.payload[40..];
    header.checksum() == header.calc_checksum_ipv4_raw(addresses.0, addresses.1, data).unwrap()
}

/// What was decided: the number of the packet, its data, and whether it goes on.
fn decided(verdicts: Vec<SnarfInterceptVerdict<NfqMessage>>) -> Vec<(u32, String, bool)> {
    verdicts
        .into_iter()
        .filter_map(verdict_to_send)
        .map(|(message, verdict)| {
            let accepted = matches!(verdict, InterceptVerdict::Accept);
            if accepted {
                assert!(checksum_is_right(&message));
            }
            (message.packet_id, text(&message.payload[40..]), accepted)
        })
        .collect()
}

fn run(setup: &mut Setup, message: NfqMessage) -> Vec<(u32, String, bool)> {
    decided(setup.handler.handle(message).unwrap())
}

fn line(id: u32, data: &str, accepted: bool) -> (u32, String, bool) {
    (id, data.to_string(), accepted)
}

#[test]
fn data_is_rewritten_on_its_way() {
    let mut setup = setup();
    assert_eq!(run(&mut setup, message(1, true, Kind::Syn, 999, b"")), [line(1, "", true)]);
    let verdicts = run(&mut setup, message(2, true, Kind::Data, 1000, b"hello"));
    assert_eq!(verdicts, [line(2, "HELLO", true)]);
    assert_eq!(*setup.shouter.calls.borrow(), [(0, true, 1000, b"hello".to_vec())]);
    assert_eq!(
        setup.scribe.take(),
        [
            "before 20 20  0",
            "after 20 true  0 accept",
            "before 20 20 hello 0",
            "after 20 true HELLO 0 accept",
        ]
    );
    assert_eq!(
        setup.net_scribe.take(),
        [
            "net before 20 ",
            "net after 20  accept",
            "net before 20 hello",
            "net after 20 HELLO accept",
        ]
    );
}

#[test]
fn retransmission_is_not_handed_over_again() {
    let mut setup = setup();
    run(&mut setup, message(1, true, Kind::Data, 1000, b"hello"));
    assert_eq!(
        run(&mut setup, message(2, true, Kind::Data, 1000, b"hello")),
        [line(2, "HELLO", true)]
    );
    assert_eq!(
        run(&mut setup, message(3, true, Kind::Data, 1003, b"lo you")),
        [line(3, "LO YOU", true)]
    );
    assert_eq!(
        *setup.shouter.calls.borrow(),
        [(0, true, 1000, b"hello".to_vec()), (0, true, 1005, b" you".to_vec())]
    );
}

#[test]
fn packets_ahead_wait_for_the_data_before_them() {
    let mut setup = setup();
    run(&mut setup, message(1, true, Kind::Data, 1000, b"a"));
    let verdicts = setup.handler.handle(message(2, true, Kind::Data, 1003, b"de")).unwrap();
    assert!(matches!(verdicts[..], [SnarfInterceptVerdict::Keep]));
    assert!(run(&mut setup, message(3, true, Kind::Data, 1005, b"f")).is_empty());
    let verdicts = run(&mut setup, message(4, true, Kind::Data, 1001, b"bc"));
    assert_eq!(verdicts, [line(2, "DE", true), line(3, "F", true), line(4, "BC", true)]);
    assert_eq!(
        *setup.shouter.calls.borrow(),
        [
            (0, true, 1000, b"a".to_vec()),
            (0, true, 1001, b"bc".to_vec()),
            (0, true, 1003, b"de".to_vec()),
            (0, true, 1005, b"f".to_vec()),
        ]
    );
}

#[test]
fn overlapping_packets_are_let_go_together() {
    let mut setup = setup();
    run(&mut setup, message(1, true, Kind::Data, 100, b"a"));
    assert!(run(&mut setup, message(2, true, Kind::Data, 110, b"bcdefghijk")).is_empty());
    assert!(run(&mut setup, message(3, true, Kind::Data, 115, b"?????lmnop")).is_empty());
    let verdicts = run(&mut setup, message(4, true, Kind::Data, 101, b"123456789"));
    assert_eq!(
        verdicts,
        [line(2, "BCDEFGHIJK", true), line(3, "GHIJKLMNOP", true), line(4, "123456789", true)]
    );
    assert_eq!(
        setup.shouter.calls.borrow()[1..],
        [
            (0, true, 101, b"123456789".to_vec()),
            (0, true, 110, b"bcdefghijk".to_vec()),
            (0, true, 120, b"lmnop".to_vec()),
        ]
    );
    assert!(setup.handler.transport_handler.sessions.map[0]
        .value
        .session
        .src_tracker
        .future_queue
        .is_empty());
}

#[test]
fn length_of_a_packet_stays_known() {
    let mut setup = setup();
    run(&mut setup, message(1, true, Kind::Data, 1000, b"a"));
    let mut early = message(2, true, Kind::Data, 1002, b"c");
    early.original_len = 777;
    assert!(run(&mut setup, early).is_empty());
    let verdicts = setup.handler.handle(message(3, true, Kind::Data, 1001, b"b")).unwrap();
    let SnarfInterceptVerdict::Accept(message) = &verdicts[0] else {
        panic!("Expected an accepted packet");
    };
    assert_eq!((message.packet_id, message.original_len), (2, 777));
}

#[test]
fn stream_picked_up_in_its_middle_goes_on() {
    let mut setup = setup();
    run(&mut setup, message(1, true, Kind::Data, 1002, b"cd"));
    let verdicts = run(&mut setup, message(2, true, Kind::Data, 1000, b"ab??ef"));
    assert_eq!(verdicts, [line(2, "abCDEF", true)]);
    let verdicts = run(&mut setup, message(3, true, Kind::Data, 1006, b"gh"));
    assert_eq!(verdicts, [line(3, "GH", true)]);
    assert_eq!(
        setup.shouter.calls.borrow()[1..],
        [(0, true, 1004, b"ef".to_vec()), (0, true, 1006, b"gh".to_vec())]
    );
}

#[test]
fn handler_can_drop() {
    let mut setup = setup();
    let verdicts = run(&mut setup, message(1, true, Kind::Data, 1000, b"no!"));
    assert_eq!(verdicts, [line(1, "NO!", false)]);
    assert_eq!(setup.net_scribe.take()[1], "net after 20 NO! drop");
}

#[test]
fn handler_cannot_drop_what_was_held_back() {
    let mut setup = setup();
    run(&mut setup, message(1, true, Kind::Data, 1000, b"a"));
    run(&mut setup, message(2, true, Kind::Data, 1002, b"!"));
    let verdicts = run(&mut setup, message(3, true, Kind::Data, 1001, b"b"));
    assert_eq!(verdicts, [line(2, "!", true), line(3, "B", true)]);
}

#[test]
fn reset_drops_what_was_held_back() {
    let mut setup = setup();
    run(&mut setup, message(1, true, Kind::Data, 1000, b"a"));
    run(&mut setup, message(2, false, Kind::Data, 5000, b"z"));
    run(&mut setup, message(3, false, Kind::Data, 5002, b"y"));
    run(&mut setup, message(4, true, Kind::Data, 1002, b"c"));
    setup.scribe.take();
    let verdicts = run(&mut setup, message(5, false, Kind::Rst, 5001, b""));
    assert_eq!(verdicts, [line(4, "c", false), line(3, "y", false), line(5, "", true)]);
    assert_eq!(
        setup.scribe.take(),
        [
            "before 20 20  0",
            "after 20 true c 0 drop",
            "after 20 false y 0 drop",
            "after 20 false  0 accept",
            "close false 0",
            "close true 0",
        ]
    );
    run(&mut setup, message(6, true, Kind::Data, 7000, b"n"));
    assert_eq!(setup.shouter.calls.borrow().last().unwrap().0, 1);
}

#[test]
fn other_syn_starts_over() {
    let mut setup = setup();
    run(&mut setup, message(1, true, Kind::Syn, 999, b""));
    run(&mut setup, message(2, true, Kind::Data, 1005, b"x"));
    setup.scribe.take();
    let verdicts = run(&mut setup, message(3, true, Kind::Syn, 7000, b""));
    assert_eq!(verdicts, [line(2, "x", false), line(3, "", true)]);
    assert_eq!(
        setup.scribe.take(),
        ["before 20 20  0", "after 20 true x 0 drop", "after 20 true  1 accept"]
    );
    run(&mut setup, message(4, true, Kind::Data, 7001, b"q"));
    assert_eq!(*setup.shouter.calls.borrow(), [(1, true, 7001, b"q".to_vec())]);
}

#[test]
fn repeated_syn_changes_nothing() {
    let mut setup = setup();
    run(&mut setup, message(1, true, Kind::Syn, 999, b""));
    run(&mut setup, message(2, true, Kind::Syn, 999, b""));
    assert_eq!(setup.handler.transport_handler.sessions.id_counter, 1);
}

#[test]
fn overflow_ends_the_connection() {
    let mut setup = setup();
    run(&mut setup, message(0, true, Kind::Data, 1000, b"a"));
    for i in 0..FUTURE_QUEUE_LIMIT {
        assert!(run(&mut setup, message(i as u32 + 1, true, Kind::Data, 1005, b"x")).is_empty());
    }
    let verdicts = run(&mut setup, message(900, true, Kind::Data, 1005, b"x"));
    assert_eq!(verdicts.len(), FUTURE_QUEUE_LIMIT + 1);
    assert!(verdicts.iter().all(|(_, _, accepted)| !accepted));
    assert_eq!(verdicts.last().unwrap().0, 900);
    assert_eq!(setup.scribe.take().last().unwrap(), "close true 0");
    assert_eq!(setup.handler.transport_handler.sessions.map.len(), 0);
}

#[test]
fn no_packet_is_lost_or_doubled() {
    let mut setup = setup();
    let mut out: Vec<u32> = vec![];
    let order = [0u32, 7, 3, 5, 1, 2, 6, 4];
    for (id, place) in order.iter().enumerate() {
        let sent = message(id as u32, true, Kind::Data, 1000 + place, b"k");
        out.extend(run(&mut setup, sent).iter().map(|(id, _, _)| *id));
    }
    out.sort();
    assert_eq!(out, (0..8).collect::<Vec<u32>>());
    let counters: Vec<i64> = setup.shouter.calls.borrow().iter().map(|call| call.2).collect();
    assert_eq!(counters, (1000..1008).collect::<Vec<i64>>());
}

#[test]
fn other_connections_are_not_touched() {
    let mut setup = setup();
    run(&mut setup, message(1, true, Kind::Data, 1000, b"a"));
    let mut other = message(2, true, Kind::Data, 50, b"b");
    other.payload[21] = 1;
    run(&mut setup, other);
    let calls = setup.shouter.calls.borrow().clone();
    assert_eq!(calls, [(0, true, 1000, b"a".to_vec()), (1, true, 50, b"b".to_vec())]);
}

#[test]
fn unparsable_packets_pass() {
    let mut setup = setup();
    let broken = NfqMessage { packet_id: 9, payload: vec![0x45, 0, 0], original_len: 3 };
    let verdicts = setup.handler.on_payload(broken);
    let [SnarfInterceptVerdict::Accept(message)] = &verdicts[..] else {
        panic!("Expected one accepted packet");
    };
    assert_eq!(message.packet_id, 9);
    assert_eq!(message.payload, vec![0x45, 0, 0]);
    assert!(setup.net_scribe.take().is_empty());
}

#[test]
fn segments_without_a_whole_header_pass() {
    let mut setup = setup();
    let mut sent = message(3, true, Kind::Data, 1000, b"hello");
    sent.payload[32] = 4 << 4;
    let payload = sent.payload.clone();
    let verdicts = setup.handler.handle(sent).unwrap();
    let [SnarfInterceptVerdict::Accept(message)] = &verdicts[..] else {
        panic!("Expected one accepted packet");
    };
    assert_eq!((message.packet_id, &message.payload), (3, &payload));
    assert!(setup.shouter.calls.borrow().is_empty());
}

#[test]
fn header_options_are_skipped() {
    let mut setup = setup();
    let mut sent = message(3, true, Kind::Data, 1000, b"hello");
    for _ in 0..4 {
        sent.payload.insert(20, 1);
    }
    sent.payload[0] = 0x46;
    sent.payload[3] += 4;
    sent.original_len += 4;
    let verdicts = setup.handler.handle(sent).unwrap();
    let [SnarfInterceptVerdict::Accept(message)] = &verdicts[..] else {
        panic!("Expected one accepted packet");
    };
    assert_eq!(&message.payload[44..], b"HELLO");
    assert_eq!(setup.net_scribe.take(), ["net before 24 hello", "net after 24 HELLO accept"]);
}

#[test]
fn parsed_packets_reach_the_handler() {
    let mut setup = setup();
    let verdicts = setup.handler.on_payload(message(1, false, Kind::Data, 1000, b"hi"));
    assert_eq!(decided(verdicts), [line(1, "HI", true)]);
    let last = setup.handler.transport_handler.last_used_key.unwrap();
    assert_eq!((last.0.net, last.0.port), (SERVER, 80));
    assert_eq!((last.1.net, last.1.port), (CLIENT, 4000));
}

#[test]
fn sliced_packets_are_handled_as_told() {
    let mut setup = setup();
    let sliced = SlicedNet::Ipv4 { source: [1, 1, 1, 1], destination: [2, 2, 2, 2], ihl: 5 };
    let sent = message(1, true, Kind::Data, 1000, b"x");
    let verdicts = setup.handler.on_sliced_payload(sent, sliced);
    assert_eq!(verdicts.len(), 1);
    let last = setup.handler.transport_handler.last_used_key.unwrap();
    assert_eq!((last.0.net, last.1.net), ([1, 1, 1, 1], [2, 2, 2, 2]));
    let sent = message(2, true, Kind::Data, 1000, b"x");
    let payload = sent.payload.clone();
    let verdicts = setup.handler.on_sliced_payload(sent, SlicedNet::Malformed);
    let [SnarfInterceptVerdict::Accept(message)] = &verdicts[..] else {
        panic!("Expected one accepted packet");
    };
    assert_eq!(message.payload, payload);
}

#[test]
fn ipv6_is_given_back() {
    let mut setup = setup();
    let mut payload = vec![];
    PacketBuilder::ipv6([1; 16], [2; 16], 64)
        .tcp(4000, 80, 1, 1000)
        .write(&mut payload, b"x")
        .unwrap();
    let original_len = payload.len();
    let sent = NfqMessage { packet_id: 4, payload: payload.clone(), original_len };
    let given_back = setup.handler.handle(sent).err().unwrap();
    assert_eq!(given_back.packet_id, 4);
    assert_eq!(given_back.payload, payload);
}

#[test]
fn packets_without_a_segment_are_given_back() {
    let mut setup = setup();
    let mut payload = vec![];
    PacketBuilder::ipv4(CLIENT, SERVER, 64).udp(1, 2).write(&mut payload, b"").unwrap();
    let original_len = payload.len();
    let sent = NfqMessage { packet_id: 4, payload, original_len };
    assert!(setup.handler.handle(sent).is_err());
}

#[test]
fn cut_off_packets_are_noticed() {
    let mut whole = message(1, true, Kind::Syn, 1, b"");
    assert!(!whole.is_truncated());
    whole.original_len += 1;
    assert!(whole.is_truncated());
}

#[test]
fn messages_are_split_behind_the_header() {
    let whole = message(1, true, Kind::Data, 1, b"abc");
    let mut parent = NfqMessageParent { message: whole, ip_header_len: 20 };
    {
        let (net_header, segment) = parent.split();
        assert_eq!(net_header[0], 0x45);
        assert_eq!(segment.len(), 23);
        segment[20] = b'X';
    }
    assert_eq!(&parent.message.payload[40..], b"Xbc");
}

#[test]
fn verdicts_to_send() {
    assert_eq!(
        verdict_to_send(SnarfInterceptVerdict::Accept(1)),
        Some((1, InterceptVerdict::Accept))
    );
    assert_eq!(verdict_to_send(SnarfInterceptVerdict::Drop(2)), Some((2, InterceptVerdict::Drop)));
    assert_eq!(verdict_to_send::<u8>(SnarfInterceptVerdict::Keep), None);
}

#[test]
fn verdicts_are_carried_out_in_order() {
    let mut steps: InterceptLoop<u32> = InterceptLoop::new();
    assert!(matches!(steps.next(true), InterceptAction::Receive));
    steps.decided(vec![SnarfInterceptVerdict::Keep, SnarfInterceptVerdict::Drop(4)]);
    steps.decided(vec![SnarfInterceptVerdict::Accept(5), SnarfInterceptVerdict::Keep]);
    assert!(matches!(steps.next(false), InterceptAction::Send(4, InterceptVerdict::Drop)));
    assert!(matches!(steps.next(true), InterceptAction::Send(5, InterceptVerdict::Accept)));
    assert!(matches!(steps.next(false), InterceptAction::Stop));
}

#[test]
fn options_name_the_queue() {
    let options = SnarfNfqIpv4TcpOptions { queue_num: 7 };
    assert_eq!(SnarfNfqNetOptions::from(&options).queue_num, 7);
}

#[test]
fn default_handler_follows_nothing() {
    let handler: SnarfNfqIpv4<NfqTcp<Shouter, NoSpy>, NoSpy> = SnarfNfqIpv4::default();
    assert_eq!(handler.transport_handler.sessions.map.len(), 0);
    assert!(handler.transport_handler.last_used_key.is_none());
}

#[test]
fn spy_can_be_left_out() {
    let tcp: NfqTcp<Shouter, NoSpy> = SnarfTcp::new_from(Shouter::default(), NoSpy);
    let mut handler = SnarfNfqIpv4::new(tcp, NoSpy);
    let verdicts = handler.handle(message(1, true, Kind::Data, 1000, b"x")).unwrap();
    assert_eq!(decided(verdicts), [line(1, "X", true)]);
}
