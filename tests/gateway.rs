use std::sync::{Arc, Mutex};

use network_rpc::address::{parse_socket_addr, Segments, SocketAddress};
use network_rpc::gateway::{
    node_operation_outcome, AddNodeOperation, NetworkApi, NetworkClient, NodeError, NodeTableError,
};
use network_rpc::table::PeerTable;

fn addr(a: u8, b: u8, c: u8, d: u8, port: u16) -> SocketAddress {
    SocketAddress::V4 { a, b, c, d, port }
}

fn addr6(g: [u16; 8], scope_id: u32, port: u16) -> SocketAddress {
    SocketAddress::V6 {
        segments: Segments(g[0], g[1], g[2], g[3], g[4], g[5], g[6], g[7]),
        flowinfo: 0,
        scope_id,
        port,
    }
}

/// A fake peer table that records what the gateway asked of it.
struct FakeTable {
    nodes: Mutex<Vec<SocketAddress>>,
    calls: Arc<Mutex<Vec<String>>>,
}

impl FakeTable {
    fn new() -> FakeTable {
        FakeTable { nodes: Mutex::new(Vec::new()), calls: Arc::new(Mutex::new(Vec::new())) }
    }
}

impl NetworkApi for FakeTable {
    fn add_node(&self, socket_addr: SocketAddress) -> Result<(), NodeTableError> {
        self.calls.lock().unwrap().push("add".to_string());
        let mut nodes = self.nodes.lock().unwrap();
        if nodes.contains(&socket_addr) {
            Err(NodeTableError::AlreadyAdded)
        } else {
            nodes.push(socket_addr);
            Ok(())
        }
    }

    fn remove_node(&self, socket_addr: SocketAddress) -> Result<(), NodeTableError> {
        self.calls.lock().unwrap().push("remove".to_string());
        let mut nodes = self.nodes.lock().unwrap();
        match nodes.iter().position(|n| *n == socket_addr) {
            Some(i) => {
                nodes.remove(i);
                Ok(())
            }
            None => Err(NodeTableError::NoAddressInTable),
        }
    }

    fn connect(&self, _socket_addr: SocketAddress) {
        self.calls.lock().unwrap().push("connect".to_string());
    }
}

#[test]
fn parses_plain_address() {
    assert_eq!(parse_socket_addr("127.0.0.1:8008"), Some(addr(127, 0, 0, 1, 8008)));
    assert_eq!(parse_socket_addr("10.0.0.5:30303"), Some(addr(10, 0, 0, 5, 30303)));
    assert_eq!(parse_socket_addr("0.0.0.0:0"), Some(addr(0, 0, 0, 0, 0)));
    assert_eq!(parse_socket_addr("255.255.255.255:65535"), Some(addr(255, 255, 255, 255, 65535)));
}

#[test]
fn port_may_have_leading_zeros() {
    assert_eq!(parse_socket_addr("1.2.3.4:0080"), Some(addr(1, 2, 3, 4, 80)));
    assert_eq!(parse_socket_addr("1.2.3.4:000000000065535"), Some(addr(1, 2, 3, 4, 65535)));
}

#[test]
fn rejects_out_of_range_fields() {
    assert_eq!(parse_socket_addr("256.0.0.1:80"), None);
    assert_eq!(parse_socket_addr("1.2.3.999:80"), None);
    assert_eq!(parse_socket_addr("1.2.3.4:65536"), None);
    assert_eq!(parse_socket_addr("1.2.3.4:99999999999999999999"), None);
}

#[test]
fn rejects_leading_zero_octets() {
    assert_eq!(parse_socket_addr("01.2.3.4:80"), None);
    assert_eq!(parse_socket_addr("1.2.3.00:80"), None);
    assert_eq!(parse_socket_addr("1.2.3.0001:80"), None);
}

#[test]
fn rejects_malformed_text() {
    for text in [
        "",
        "not-an-address",
        "1.2.3.4",
        "1.2.3.4:",
        "1.2.3:80",
        "1.2.3.4.5:80",
        ".1.2.3:80",
        "1..2.3:80",
        " 1.2.3.4:80",
        "1.2.3.4:80 ",
        "1.2.3.4:+80",
        "1.2.3.4::80",
        "1.2.3.4:80:81",
        "localhost:8008",
        "１.2.3.4:80",
    ] {
        assert_eq!(parse_socket_addr(text), None, "{:?}", text);
    }
}

#[test]
fn outcome_masks_table_failures() {
    assert_eq!(node_operation_outcome(AddNodeOperation::Add, Ok(())), Ok(()));
    assert_eq!(
        node_operation_outcome(AddNodeOperation::Add, Err(NodeTableError::AlreadyAdded)),
        Err(NodeError::NodeAlreadyKnown)
    );
    assert_eq!(
        node_operation_outcome(AddNodeOperation::Add, Err(NodeTableError::NoAddressInTable)),
        Err(NodeError::NodeAlreadyKnown)
    );
    assert_eq!(node_operation_outcome(AddNodeOperation::Remove, Ok(())), Ok(()));
    assert_eq!(
        node_operation_outcome(AddNodeOperation::Remove, Err(NodeTableError::NoAddressInTable)),
        Err(NodeError::NodeNotKnown)
    );
    assert_eq!(
        node_operation_outcome(AddNodeOperation::Remove, Err(NodeTableError::AlreadyAdded)),
        Err(NodeError::NodeNotKnown)
    );
    assert_eq!(
        node_operation_outcome(AddNodeOperation::OneTry, Err(NodeTableError::AlreadyAdded)),
        Ok(())
    );
}

#[test]
fn error_messages() {
    assert_eq!(
        NodeError::InvalidAddress.message(),
        "Invalid socket address format, should be ip:port (127.0.0.1:8008)"
    );
    assert_eq!(NodeError::NodeAlreadyKnown.message(), "node already added");
    assert_eq!(NodeError::NodeNotKnown.message(), "node not added");
}

#[test]
fn table_scenario() {
    let mut table = PeerTable::new();
    assert_eq!(table.perform("127.0.0.1:8008", AddNodeOperation::Add), Ok(()));
    assert_eq!(
        table.perform("127.0.0.1:8008", AddNodeOperation::Add),
        Err(NodeError::NodeAlreadyKnown)
    );
    assert_eq!(
        table.perform("not-an-address", AddNodeOperation::Add),
        Err(NodeError::InvalidAddress)
    );
    assert_eq!(
        table.perform("10.0.0.5:30303", AddNodeOperation::Remove),
        Err(NodeError::NodeNotKnown)
    );
    assert_eq!(table.perform("10.0.0.5:30303", AddNodeOperation::OneTry), Ok(()));
    assert!(table.contains(addr(127, 0, 0, 1, 8008)));
    assert!(!table.contains(addr(10, 0, 0, 5, 30303)));
}

#[test]
fn table_invalid_text_leaves_table() {
    let mut table = PeerTable::new();
    for op in [AddNodeOperation::Add, AddNodeOperation::Remove, AddNodeOperation::OneTry] {
        assert_eq!(table.perform("1.2.3.4", op), Err(NodeError::InvalidAddress));
    }
    assert!(!table.contains(addr(1, 2, 3, 4, 0)));
}

#[test]
fn table_remove_then_absent() {
    let mut table = PeerTable::new();
    assert_eq!(table.perform("10.0.0.5:30303", AddNodeOperation::Add), Ok(()));
    assert_eq!(table.perform("10.0.0.6:30303", AddNodeOperation::Add), Ok(()));
    assert_eq!(table.perform("10.0.0.5:30303", AddNodeOperation::Remove), Ok(()));
    assert!(!table.contains(addr(10, 0, 0, 5, 30303)));
    assert!(table.contains(addr(10, 0, 0, 6, 30303)));
    assert_eq!(
        table.perform("10.0.0.5:30303", AddNodeOperation::Remove),
        Err(NodeError::NodeNotKnown)
    );
}

#[test]
fn table_add_remove_add() {
    let mut table = PeerTable::new();
    assert_eq!(table.perform("192.168.1.20:8333", AddNodeOperation::Add), Ok(()));
    assert_eq!(table.perform("192.168.1.20:8333", AddNodeOperation::Remove), Ok(()));
    assert_eq!(table.perform("192.168.1.20:8333", AddNodeOperation::Add), Ok(()));
    assert!(table.contains(addr(192, 168, 1, 20, 8333)));
}

#[test]
fn table_one_try_on_known_and_unknown() {
    let mut table = PeerTable::new();
    assert_eq!(table.perform("10.0.0.5:30303", AddNodeOperation::OneTry), Ok(()));
    assert_eq!(table.perform("10.0.0.5:30303", AddNodeOperation::Add), Ok(()));
    assert_eq!(table.perform("10.0.0.5:30303", AddNodeOperation::OneTry), Ok(()));
    assert!(table.contains(addr(10, 0, 0, 5, 30303)));
}

#[test]
fn table_direct_calls() {
    let mut table = PeerTable::new();
    let a = addr(8, 8, 8, 8, 53);
    assert_eq!(table.add_node(a), Ok(()));
    assert_eq!(table.add_node(a), Err(NodeTableError::AlreadyAdded));
    assert_eq!(table.remove_node(a), Ok(()));
    assert_eq!(table.remove_node(a), Err(NodeTableError::NoAddressInTable));
}

#[test]
fn client_scenario() {
    let client = NetworkClient::new(FakeTable::new());
    assert_eq!(client.add_node("127.0.0.1:8008".to_string(), AddNodeOperation::Add), Ok(()));
    assert_eq!(
        client.add_node("127.0.0.1:8008".to_string(), AddNodeOperation::Add),
        Err(NodeError::NodeAlreadyKnown)
    );
    assert_eq!(
        client.add_node("10.0.0.5:30303".to_string(), AddNodeOperation::Remove),
        Err(NodeError::NodeNotKnown)
    );
    assert_eq!(client.add_node("10.0.0.5:30303".to_string(), AddNodeOperation::OneTry), Ok(()));
    assert_eq!(client.add_node("127.0.0.1:8008".to_string(), AddNodeOperation::Remove), Ok(()));
    assert_eq!(client.add_node("127.0.0.1:8008".to_string(), AddNodeOperation::Add), Ok(()));
}

#[test]
fn client_invalid_address_never_reaches_table() {
    let table = FakeTable::new();
    let calls = table.calls.clone();
    let client = NetworkClient::new(table);
    for op in [AddNodeOperation::Add, AddNodeOperation::Remove, AddNodeOperation::OneTry] {
        assert_eq!(
            client.add_node("not-an-address".to_string(), op),
            Err(NodeError::InvalidAddress)
        );
        assert_eq!(client.add_node("1.2.3.4:".to_string(), op), Err(NodeError::InvalidAddress));
    }
    assert!(calls.lock().unwrap().is_empty());
    assert_eq!(client.add_node("1.2.3.4:5".to_string(), AddNodeOperation::OneTry), Ok(()));
    assert_eq!(client.add_node("1.2.3.4:5".to_string(), AddNodeOperation::Add), Ok(()));
    assert_eq!(client.add_node("1.2.3.4:5".to_string(), AddNodeOperation::Remove), Ok(()));
    assert_eq!(*calls.lock().unwrap(), vec!["connect", "add", "remove"]);
}

#[test]
fn parses_ipv6_forms() {
    assert_eq!(parse_socket_addr("[::1]:8008"), Some(addr6([0, 0, 0, 0, 0, 0, 0, 1], 0, 8008)));
    assert_eq!(
        parse_socket_addr("[2001:db8::1]:30303"),
        Some(addr6([0x2001, 0xdb8, 0, 0, 0, 0, 0, 1], 0, 30303))
    );
    assert_eq!(
        parse_socket_addr("[::ffff:1.2.3.4]:80"),
        Some(addr6([0, 0, 0, 0, 0, 0xffff, 0x0102, 0x0304], 0, 80))
    );
    assert_eq!(parse_socket_addr("[fe80::1%2]:80"), Some(addr6([0xfe80, 0, 0, 0, 0, 0, 0, 1], 2, 80)));
    assert_eq!(
        parse_socket_addr("[fe80::1%4294967295]:80"),
        Some(addr6([0xfe80, 0, 0, 0, 0, 0, 0, 1], 4294967295, 80))
    );
    assert_eq!(parse_socket_addr("[::]:0"), Some(addr6([0; 8], 0, 0)));
    assert_eq!(parse_socket_addr("[1::]:5"), Some(addr6([1, 0, 0, 0, 0, 0, 0, 0], 0, 5)));
    assert_eq!(
        parse_socket_addr("[1:2:3:4:5:6:7:8]:1"),
        Some(addr6([1, 2, 3, 4, 5, 6, 7, 8], 0, 1))
    );
    assert_eq!(
        parse_socket_addr("[1:2:3:4:5:6:7::]:1"),
        Some(addr6([1, 2, 3, 4, 5, 6, 7, 0], 0, 1))
    );
    assert_eq!(
        parse_socket_addr("[1:2:3:4:5:6:1.2.3.4]:1"),
        Some(addr6([1, 2, 3, 4, 5, 6, 0x0102, 0x0304], 0, 1))
    );
    assert_eq!(
        parse_socket_addr("[::1.2.3.4]:80"),
        Some(addr6([0, 0, 0, 0, 0, 0, 0x0102, 0x0304], 0, 80))
    );
    assert_eq!(
        parse_socket_addr("[ABCD::ef:0]:65535"),
        Some(addr6([0xabcd, 0, 0, 0, 0, 0, 0xef, 0], 0, 65535))
    );
    assert_eq!(parse_socket_addr("[::1]:0080"), Some(addr6([0, 0, 0, 0, 0, 0, 0, 1], 0, 80)));
}

#[test]
fn rejects_malformed_ipv6() {
    for text in [
        "[::1]",
        "::1:80",
        "[::1]80",
        "[::1]:",
        "[::1]:65536",
        "[1:2:3:4:5:6:7:8:9]:1",
        "[1:2:3:4:5:6:7]:1",
        "[1::2::3]:1",
        "[12345::]:1",
        "[1:2:3:4:5:6:7::8]:1",
        "[1:2:3:4:5:6:7:8::]:1",
        "[1.2.3.4]:80",
        "[1.2.3.4::]:80",
        "[1:2:3:4:5:6:7:1.2.3.4]:1",
        "[::01.2.3.4]:80",
        "[::1%]:80",
        "[fe80::1%4294967296]:80",
        "[fe80::1%x]:80",
        "[::g]:80",
        "[:1]:80",
        "[::1] :80",
        "[[::1]]:80",
    ] {
        assert_eq!(parse_socket_addr(text), None, "{:?}", text);
    }
}

#[test]
fn client_ipv6_scenario() {
    let client = NetworkClient::new(FakeTable::new());
    assert_eq!(client.add_node("[::1]:8008".to_string(), AddNodeOperation::Add), Ok(()));
    assert_eq!(
        client.add_node("[::1]:8008".to_string(), AddNodeOperation::Add),
        Err(NodeError::NodeAlreadyKnown)
    );
    assert_eq!(client.add_node("[::1]:8008".to_string(), AddNodeOperation::Remove), Ok(()));
    assert_eq!(
        client.add_node("[::1]:8008".to_string(), AddNodeOperation::Remove),
        Err(NodeError::NodeNotKnown)
    );
    assert_eq!(client.add_node("[fe80::1%2]:80".to_string(), AddNodeOperation::OneTry), Ok(()));
    assert_eq!(client.add_node("[::1]:8008".to_string(), AddNodeOperation::Add), Ok(()));
}

#[test]
fn table_ipv6_add_remove_add() {
    let mut table = PeerTable::new();
    assert_eq!(table.perform("[2001:db8::1]:30303", AddNodeOperation::Add), Ok(()));
    assert_eq!(table.perform("[2001:db8::1]:30303", AddNodeOperation::Remove), Ok(()));
    assert_eq!(table.perform("[2001:db8::1]:30303", AddNodeOperation::Add), Ok(()));
    assert!(table.contains(addr6([0x2001, 0xdb8, 0, 0, 0, 0, 0, 1], 0, 30303)));
    assert!(!table.contains(addr(127, 0, 0, 1, 30303)));
}
