use std::cell::RefCell;
use std::rc::Rc;

use etherparse::{PacketBuilder, TcpHeader};

use snarf::ipv4_util::ipv4_header_len;
use snarf::tcp_util::{
    ACK_MASK, CWR_MASK, ECE_MASK, FIN_MASK, PSH_MASK, RST_MASK, SYN_MASK, URG_MASK,
};
use snarf::{
    ApplicationDataSnarfHandler, InterceptVerdict, Ipv4Type, SnarfInterceptVerdict, SnarfTcp,
    TcpAddr, TransportPacketParent, TransportSnarfHandler, TransportSnarfSpy,
};

struct AHDummy {}

impl ApplicationDataSnarfHandler for AHDummy {
    fn on_data(
        &mut self,
        _session_id: u64,
        _is_client: bool,
        _counter: i64,
        _data: &mut [u8],
    ) -> InterceptVerdict {
        InterceptVerdict::Accept
    }
}

#[allow(dead_code)]
struct PacketEvent {
    net_header: Vec<u8>,
    transport_header: Vec<u8>,
    data: Vec<u8>,
    session_id: u64,
    // Is some when inside a SpyEvent::After or SpyEvent::Close
    is_client: Option<bool>,
    // Is some when inside a SpyEvent::After
    verdict: Option<InterceptVerdict>,
}

impl PacketEvent {
    fn new(
        net_header: &[u8],
        transport_header: &[u8],
        data: &[u8],
        session_id: u64,
        is_client: Option<bool>,
        verdict: Option<InterceptVerdict>,
    ) -> Self {
        Self {
            net_header: net_header.to_vec(),
            transport_header: transport_header.to_vec(),
            data: data.to_vec(),
            session_id,
            is_client,
            verdict,
        }
    }
}

enum SpyEvent {
    Before(PacketEvent),
    After(PacketEvent),
    Close(PacketEvent),
}

#[derive(Clone, Default)]
struct TSpy {
    events: Rc<RefCell<Vec<SpyEvent>>>,
}

impl TransportSnarfSpy for TSpy {
    fn before(
        &mut self,
        net_header: &[u8],
        transport_header: &[u8],
        data: &[u8],
        session_id: u64,
    ) {
        self.events.borrow_mut().push(SpyEvent::Before(PacketEvent::new(
            net_header,
            transport_header,
            data,
            session_id,
            None,
            None,
        )));
    }
    fn after(
        &mut self,
        net_header: &[u8],
        transport_header: &[u8],
        is_client: bool,
        data: &[u8],
        session_id: u64,
        verdict: &InterceptVerdict,
    ) {
        self.events.borrow_mut().push(SpyEvent::After(PacketEvent::new(
            net_header,
            transport_header,
            data,
            session_id,
            Some(is_client),
            Some(verdict.clone()),
        )));
    }
    fn close(&mut self, is_client: bool, session_id: u64) {
        self.events.borrow_mut().push(SpyEvent::Close(PacketEvent::new(
            &[],
            &[],
            &[],
            session_id,
            Some(is_client),
            None,
        )));
    }
}

struct TParent {
    id: u64,
    ip: Vec<u8>,
    tcp: Vec<u8>,
}

impl TransportPacketParent for TParent {
    fn split(&mut self) -> (&[u8], &mut [u8]) {
        (&self.ip, &mut self.tcp)
    }
}

type THandler = SnarfTcp<AHDummy, TSpy, Ipv4Type, TParent>;

fn new_transport_handler() -> THandler {
    THandler::new_from(AHDummy {}, TSpy::default())
}

struct TcpConnection {
    src_ip: [u8; 4],
    dst_ip: [u8; 4],
    src_port: u16,
    dst_port: u16,
}

impl TcpConnection {
    /// Returns the reversed connection
    fn rev(&self) -> Self {
        Self {
            src_ip: self.dst_ip,
            dst_ip: self.src_ip,
            src_port: self.dst_port,
            dst_port: self.src_port,
        }
    }

    fn get_addr(&self) -> (TcpAddr<Ipv4Type>, TcpAddr<Ipv4Type>) {
        let src_addr = TcpAddr::new(self.src_ip, self.src_port);
        let dst_addr = TcpAddr::new(self.dst_ip, self.dst_port);

        (src_addr, dst_addr)
    }
}

fn first_connection() -> TcpConnection {
    TcpConnection {
        src_ip: [192, 138, 26, 100],
        dst_ip: [192, 198, 26, 100],
        src_port: 1024,
        dst_port: 1024,
    }
}

fn gen_packet(
    id: u64,
    conn: &TcpConnection,
    payload: &[u8],
    seq: u32,
    ack: Option<u32>,
    flags: u8,
) -> TParent {
    let ttl = 64;
    let window_size = u16::MAX;

    let mut tcp_header = TcpHeader::new(conn.src_port, conn.dst_port, seq, window_size);
    tcp_header.fin = (flags & FIN_MASK) != 0;
    tcp_header.syn = (flags & SYN_MASK) != 0;
    tcp_header.rst = (flags & RST_MASK) != 0;
    tcp_header.psh = (flags & PSH_MASK) != 0;
    tcp_header.ack = ack.is_some() || ((flags & ACK_MASK) != 0);
    tcp_header.urg = (flags & URG_MASK) != 0;
    tcp_header.ece = (flags & ECE_MASK) != 0;
    tcp_header.cwr = (flags & CWR_MASK) != 0;
    if let Some(ack) = ack {
        tcp_header.acknowledgment_number = ack;
    }

    let builder = PacketBuilder::ipv4(conn.src_ip, conn.dst_ip, ttl).tcp_header(tcp_header);

    let mut ip_packet = vec![];
    builder.write(&mut ip_packet, payload).unwrap();

    let ip_len = ipv4_header_len(&ip_packet) as usize;
    let tcp_segment = ip_packet.split_off(ip_len);

    TParent { id, ip: ip_packet, tcp: tcp_segment }
}

fn packet_expect_accept(th: &mut THandler, conn: &TcpConnection, packet: TParent) {
    let packet_id = packet.id;
    let verdicts = th.on_transport_packet(conn.src_ip, conn.dst_ip, packet);
    assert!(!verdicts.is_empty(), "The tcp handler must return a verdict");
    assert!(
        matches!(verdicts[0], SnarfInterceptVerdict::Accept(..)),
        "The tcp handler's verdict must be ACCEPT"
    );
    let SnarfInterceptVerdict::Accept(rf) = &verdicts[0] else {
        panic!("The tcp handler's verdict must be ACCEPT");
    };
    assert_eq!(rf.id, packet_id, "The returned verdict must be for the provided packet");

    let session_id = {
        let (src, dst) = conn.get_addr();
        let res = th.sessions.get_session(src, dst);

        res.session_id
    };

    let events = &mut th.transport_spy.events.borrow_mut();
    assert!(events.len() == 2);
    let SpyEvent::Before(e) = events.remove(0) else {
        panic!("Expected 'before' event");
    };
    assert_eq!(e.session_id, session_id);
    let SpyEvent::After(e) = events.remove(0) else {
        panic!("Expected 'after' event");
    };
    assert_eq!(e.session_id, session_id);
}

fn packet_expect_close(th: &mut THandler, conn: &TcpConnection, packet: TParent) {
    let packet_id = packet.id;
    let session_id = {
        let (src, dst) = conn.get_addr();
        let res = th.sessions.get_session(src, dst);

        res.session_id
    };

    let verdicts = th.on_transport_packet(conn.src_ip, conn.dst_ip, packet);
    assert!(!verdicts.is_empty(), "The tcp handler must return a verdict");
    assert!(
        matches!(verdicts[0], SnarfInterceptVerdict::Accept(..)),
        "The tcp handler's verdict must be ACCEPT"
    );
    let SnarfInterceptVerdict::Accept(rf) = &verdicts[0] else {
        panic!("The tcp handler's verdict must be ACCEPT");
    };
    assert_eq!(rf.id, packet_id, "The returned verdict must be for the provided packet");

    let events = &mut th.transport_spy.events.borrow_mut();
    assert!(events.len() == 4);
    let SpyEvent::Before(e) = events.remove(0) else {
        panic!("Expected 'before' event");
    };
    assert_eq!(e.session_id, session_id);

    let SpyEvent::After(e) = events.remove(0) else {
        panic!("Expected 'after' event");
    };
    assert_eq!(e.session_id, session_id);

    let SpyEvent::Close(e1) = events.remove(0) else {
        panic!("Expected 'after' event");
    };
    let SpyEvent::Close(e2) = events.remove(0) else {
        panic!("Expected 'after' event");
    };
    assert_ne!(e1.is_client, e2.is_client);
    assert_eq!(e1.session_id, session_id);
    assert_eq!(e2.session_id, session_id);

    events.clear();
}

#[test]
fn test_rst_after_syn() {
    let mut th = new_transport_handler();
    let conn = &first_connection();

    let packet = gen_packet(0, conn, &[], 1000, None, SYN_MASK);
    packet_expect_accept(&mut th, conn, packet);

    let packet = gen_packet(1, &conn.rev(), &[], 0, Some(1001), RST_MASK);
    packet_expect_close(&mut th, &conn.rev(), packet);
}

#[test]
fn test_rst_after_synack() {
    let mut th = new_transport_handler();
    let conn = &first_connection();

    let packet = gen_packet(0, conn, &[], 1000, None, SYN_MASK);
    packet_expect_accept(&mut th, conn, packet);

    let packet = gen_packet(1, &conn.rev(), &[], 3000, Some(1001), SYN_MASK | ACK_MASK);
    packet_expect_accept(&mut th, &conn.rev(), packet);

    let packet = gen_packet(2, conn, &[], 1001, Some(3001), RST_MASK);
    packet_expect_close(&mut th, conn, packet);
}

#[test]
fn test_rst_after_establish() {
    let mut th = new_transport_handler();
    let conn = &first_connection();

    let packet = gen_packet(0, conn, &[], 1000, None, SYN_MASK);
    packet_expect_accept(&mut th, conn, packet);

    let packet = gen_packet(1, &conn.rev(), &[], 3000, Some(1001), SYN_MASK | ACK_MASK);
    packet_expect_accept(&mut th, &conn.rev(), packet);

    let packet = gen_packet(2, conn, &[], 1001, Some(3001), ACK_MASK);
    packet_expect_accept(&mut th, conn, packet);

    let packet = gen_packet(3, &conn.rev(), &[], 3001, Some(1001), RST_MASK);
    packet_expect_close(&mut th, &conn.rev(), packet);
}
