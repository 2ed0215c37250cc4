//! Node addresses as route bytes, with the real node ids and relay URLs.

use wyrd_sync::transport::addr::{
    decode_node_addr, encode_node_addr, IpSocket, NodeAddr, NodeAddrError,
};

fn key(byte: u8) -> [u8; 32] {
    *iroh::SecretKey::from_bytes(&[byte; 32]).public().as_bytes()
}

fn localhost() -> IpSocket {
    IpSocket::V4 {
        octets: [127, 0, 0, 1],
        port: 4242,
    }
}

fn loopback6() -> IpSocket {
    let mut octets = [0; 16];
    octets[15] = 1;
    IpSocket::V6 {
        octets,
        port: 9999,
        flowinfo: 0,
        scope_id: 0,
    }
}

fn sample() -> NodeAddr {
    let mut address = NodeAddr::new(key(0x5A)).unwrap();
    address.with_ip_addr(localhost());
    address.with_ip_addr(loopback6());
    address.with_relay_url("https://relay.example").unwrap();
    address
}

fn parts(address: &NodeAddr) -> ([u8; 32], Vec<IpSocket>, Vec<String>) {
    (
        *address.id(),
        (0..address.ip_count()).map(|i| address.ip(i)).collect(),
        (0..address.relay_count())
            .map(|i| address.relay(i).clone())
            .collect(),
    )
}

#[test]
fn node_addr_round_trips() {
    let decoded = decode_node_addr(&encode_node_addr(&sample())).unwrap();
    assert_eq!(parts(&decoded), parts(&sample()));
    assert_eq!(
        parts(&decoded),
        (
            key(0x5A),
            vec![localhost(), loopback6()],
            vec!["https://relay.example/".to_string()]
        )
    );
}

#[test]
fn encode_is_deterministic() {
    assert_eq!(encode_node_addr(&sample()), encode_node_addr(&sample()));
    // The order in which routes are added does not matter.
    let mut other = NodeAddr::new(key(0x5A)).unwrap();
    other.with_relay_url("https://relay.example").unwrap();
    other.with_ip_addr(loopback6());
    other.with_ip_addr(localhost());
    other.with_ip_addr(localhost());
    assert_eq!(encode_node_addr(&other), encode_node_addr(&sample()));
}

#[test]
fn bare_node_id_round_trips() {
    let address = NodeAddr::new(key(0x11)).unwrap();
    let bytes = encode_node_addr(&address);
    let mut expected = vec![0x01];
    expected.extend_from_slice(&key(0x11));
    expected.extend_from_slice(&[0, 0, 0, 0]);
    assert_eq!(bytes, expected);
    assert_eq!(parts(&decode_node_addr(&bytes).unwrap()), parts(&address));
}

#[test]
fn decode_rejects_truncation_and_trailing_bytes() {
    let encoded = encode_node_addr(&sample());
    for len in 0..encoded.len() {
        assert!(decode_node_addr(&encoded[..len]).is_err());
    }
    let mut padded = encoded.clone();
    padded.push(0x00);
    assert!(decode_node_addr(&padded).is_err());
    assert!(decode_node_addr(&[vec![0x02], vec![0x5A; 32]].concat()).is_err());
}

#[test]
fn decode_rejects_unknown_version() {
    let mut bytes = encode_node_addr(&sample());
    bytes[0] = 0x99;
    assert!(matches!(decode_node_addr(&bytes), Err(NodeAddrError)));
}

#[test]
fn the_layout_is_pinned() {
    let mut expected = vec![0x01];
    expected.extend_from_slice(&key(0x5A));
    expected.extend_from_slice(&[2, 0]);
    expected.extend_from_slice(&[0x04, 127, 0, 0, 1, 0x92, 0x10]);
    expected.push(0x06);
    expected.extend_from_slice(&[0, 0, 0, 0, 0, 0, 0, 0, 0, 0, 0, 0, 0, 0, 0, 1]);
    expected.extend_from_slice(&[0x0F, 0x27]);
    expected.extend_from_slice(&[1, 0]);
    expected.extend_from_slice(&[22, 0, 0, 0]);
    expected.extend_from_slice(b"https://relay.example/");
    assert_eq!(encode_node_addr(&sample()), expected);
}

fn v4(last: u8, port: u16) -> IpSocket {
    IpSocket::V4 {
        octets: [10, 0, 0, last],
        port,
    }
}

fn v6(first: u8, port: u16) -> IpSocket {
    let mut octets = [0; 16];
    octets[0] = first;
    IpSocket::V6 {
        octets,
        port,
        flowinfo: 0,
        scope_id: 0,
    }
}

#[test]
fn sockets_are_written_in_order() {
    let mut address = NodeAddr::new(key(1)).unwrap();
    for socket in [v6(0x20, 7), v4(2, 1), v6(0, 1), v4(1, 300), v4(1, 9), v6(0, 1)] {
        address.with_ip_addr(socket);
    }
    assert_eq!(
        parts(&address).1,
        vec![v4(1, 9), v4(1, 300), v4(2, 1), v6(0, 1), v6(0x20, 7)]
    );
}

#[test]
fn ids_that_are_no_point_are_refused() {
    let bad: [u8; 32] = (0..=255u8)
        .map(|b| [b; 32])
        .find(|id| iroh::PublicKey::from_bytes(id).is_err())
        .unwrap();
    assert!(NodeAddr::new(bad).is_err());
    let mut bytes = encode_node_addr(&sample());
    bytes[1..33].copy_from_slice(&bad);
    assert!(decode_node_addr(&bytes).is_err());
}

#[test]
fn texts_that_are_no_url_are_refused() {
    let mut address = NodeAddr::new(key(1)).unwrap();
    assert!(address.with_relay_url("not a url").is_err());
    assert_eq!(address.relay_count(), 0);
    let mut bytes = encode_node_addr(&sample());
    let at = bytes.len() - 22;
    bytes[at] = b' ';
    bytes[at + 5] = b' ';
    assert!(decode_node_addr(&bytes).is_err());
    // Bytes that are not UTF-8.
    let mut bytes = encode_node_addr(&sample());
    let last = bytes.len() - 1;
    bytes[last] = 0xFF;
    assert!(decode_node_addr(&bytes).is_err());
    // An unknown family.
    let mut bytes = encode_node_addr(&sample());
    bytes[35] = 0x05;
    assert!(decode_node_addr(&bytes).is_err());
}

#[test]
fn scopes_are_not_carried() {
    let mut octets = [0; 16];
    octets[0] = 0xFE;
    octets[1] = 0x80;
    let mut address = NodeAddr::new(key(1)).unwrap();
    address.with_ip_addr(IpSocket::V6 {
        octets,
        port: 1,
        flowinfo: 0,
        scope_id: 3,
    });
    let decoded = decode_node_addr(&encode_node_addr(&address)).unwrap();
    assert_eq!(
        parts(&decoded).1,
        vec![IpSocket::V6 {
            octets,
            port: 1,
            flowinfo: 0,
            scope_id: 0
        }]
    );
}

#[test]
fn routable_addresses_are_told_from_others() {
    assert!(sample().is_routable());
    assert!(NodeAddr::new(key(0x5A)).unwrap().is_routable());
    // A relay counts under the text that its URL prints, which is what the
    // route carries.
    let mut relayed = NodeAddr::new(key(2)).unwrap();
    relayed.with_relay_url("HTTPS://Relay.Example:443").unwrap();
    assert_eq!(relayed.relay(0), "https://relay.example/");
    assert!(relayed.is_routable());
    let decoded = decode_node_addr(&encode_node_addr(&relayed)).unwrap();
    assert_eq!(parts(&decoded), parts(&relayed));
    // Neither a scope nor a flow is carried.
    for (flowinfo, scope_id) in [(0, 3), (7, 0)] {
        let mut address = sample();
        address.with_ip_addr(IpSocket::V6 {
            octets: [0xFE; 16],
            port: 1,
            flowinfo,
            scope_id,
        });
        assert!(!address.is_routable());
        let decoded = decode_node_addr(&encode_node_addr(&address)).unwrap();
        assert_ne!(parts(&decoded), parts(&address));
    }
}
