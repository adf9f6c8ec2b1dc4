//! Framework for building MitM applications.
//!
//! Skip the nasty stuff. Get visibility.
pub mod addr;
pub mod deque;
pub mod handler;
pub mod intercept;
pub mod ipv4_util;
pub mod nfq_ipv4;
pub mod nfq_ipv4_tcp;
pub mod packet;
pub mod sessions;
pub mod snarf_tcp;
pub mod tcp;
pub mod tcp_event_laws;
pub mod tcp_history;
pub mod tcp_laws;
pub mod tcp_promises;
pub mod tcp_step;
pub mod tcp_tracker;
pub mod tcp_tracker_laws;
pub mod tcp_util;
pub mod util;

pub use crate::addr::{Ipv4Type, NetworkAddr, TcpAddr};
pub use crate::handler::{
    ApplicationDataSnarfHandler, NetworkSnarfHandler, NetworkSnarfSpy, NoSpy,
    TransportSnarfHandler, TransportSnarfSpy,
};
pub use crate::intercept::{verdict_to_send, InterceptAction, InterceptLoop};
pub use crate::nfq_ipv4::{NfqMessage, NfqMessageParent, SlicedNet, SnarfNfqIpv4};
pub use crate::nfq_ipv4_tcp::{NfqTcp, SnarfNfqIpv4TcpOptions, SnarfNfqNetOptions};
pub use crate::packet::{InterceptVerdict, SnarfInterceptVerdict, TransportPacketParent};
pub use crate::sessions::{TcpSessionMap, TcpSessionWithId};
pub use crate::snarf_tcp::SnarfTcp;
