//! Canonical bytes for the route that a snapshot announcement carries.
//!
//! An announcement carries its route as opaque bytes, and a route update is
//! told from a repetition by comparing them. So one address has one
//! encoding: its socket addresses and its relays are sets, written in
//! order.
//!
//! Layout: `version (1) | node id (32) | ip count (2) | per ip: family (1:
//! 0x04 or 0x06), octets (4 or 16), port (2) | relay count (2) | per relay:
//! length (4), text`. All numbers are little-endian.

use vstd::prelude::*;
use vstd::utf8::{decode_utf8, encode_utf8, valid_utf8};

use crate::order::{
    bytes_equal, bytes_precede, in_order, lemma_lex_connected, lemma_lex_irreflexive,
    lemma_lex_transitive, lex_before, Key,
};
use crate::sorted::SortedSet;

verus! {

/// The version of the encoding.
pub const NODE_ADDR_VERSION: u8 = 0x01;

/// Route bytes that are not an encoded address.
#[derive(Debug, Clone, Copy, PartialEq, Eq, Structural)]
pub struct NodeAddrError;

/// Whether 32 bytes are the id of a node.
pub uninterp spec fn is_node_id(bytes: Seq<u8>) -> bool;

/// The text of the relay URL that a text parses to.
pub uninterp spec fn relay_url(text: Seq<char>) -> Option<Seq<char>>;

/// Whether bytes are a node id, by `iroh::PublicKey::from_bytes`: whether
/// they represent a point of the curve depends on the bytes alone.
#[verifier::external_body]
fn node_id_parses(bytes: &[u8; 32]) -> (b: bool)
    ensures
        b == is_node_id(bytes@),
{
    iroh::PublicKey::from_bytes(bytes).is_ok()
}

/// The text of the URL that `iroh::RelayUrl::from_str` makes of a text, or
/// `None` where it refuses. Both depend on the text alone.
#[verifier::external_body]
fn relay_url_text(text: &str) -> (r: Option<String>)
    ensures
        match r {
            Some(url) => relay_url(text@) == Some(url@),
            None => relay_url(text@) is None,
        },
{
    text.parse::<iroh::RelayUrl>().ok().map(|url| url.to_string())
}

/// The text that bytes encode, by `std::str::from_utf8`, which accepts
/// exactly the bytes that are valid UTF-8.
#[verifier::external_body]
pub(crate) fn utf8_text<'a>(bytes: &'a [u8]) -> (r: Option<&'a str>)
    ensures
        match r {
            Some(text) => valid_utf8(bytes@) && encode_utf8(text@) == bytes@,
            None => !valid_utf8(bytes@),
        },
{
    std::str::from_utf8(bytes).ok()
}

/// A socket address.
#[allow(inconsistent_fields)]
#[derive(Debug, Clone, Copy, PartialEq, Eq)]
pub enum IpSocket {
    V4 { octets: [u8; 4], port: u16 },
    V6 { octets: [u8; 16], port: u16, flowinfo: u32, scope_id: u32 },
}

/// The mathematical value of an [`IpSocket`].
pub struct IpModel {
    pub v6: bool,
    pub octets: Seq<u8>,
    pub port: u16,
    pub flowinfo: u32,
    pub scope_id: u32,
}

impl IpModel {
    /// An address has as many octets as its family asks for.
    pub open spec fn valid(self) -> bool {
        self.octets.len() == if self.v6 {
            16nat
        } else {
            4nat
        }
    }

    /// Whether a route can carry the whole of the address: neither a flow
    /// nor a scope is written.
    pub open spec fn plain(self) -> bool {
        self.flowinfo == 0 && self.scope_id == 0
    }
}

impl View for IpSocket {
    type V = IpModel;

    open spec fn view(&self) -> IpModel {
        match *self {
            IpSocket::V4 { octets, port } => IpModel {
                v6: false,
                octets: octets@,
                port,
                flowinfo: 0,
                scope_id: 0,
            },
            IpSocket::V6 { octets, port, flowinfo, scope_id } => IpModel {
                v6: true,
                octets: octets@,
                port,
                flowinfo,
                scope_id,
            },
        }
    }
}

/// The numbers of an address in the order in which they are compared.
pub open spec fn ranked(a: IpModel, b: IpModel) -> bool {
    a.port < b.port || (a.port == b.port && (a.flowinfo < b.flowinfo || (a.flowinfo == b.flowinfo
        && a.scope_id < b.scope_id)))
}

/// IPv4 addresses come before IPv6 addresses; within a family the octets
/// decide, then the port, the flow and the scope.
impl Key for IpSocket {
    type Model = IpModel;

    open spec fn model(&self) -> IpModel {
        self@
    }

    open spec fn before(a: IpModel, b: IpModel) -> bool {
        (!a.v6 && b.v6) || (a.v6 == b.v6 && (lex_before(a.octets, b.octets) || (a.octets == b.octets
            && ranked(a, b))))
    }

    proof fn irreflexive(a: IpModel) {
        lemma_lex_irreflexive(a.octets);
    }

    proof fn transitive(a: IpModel, b: IpModel, c: IpModel) {
        if lex_before(a.octets, b.octets) && lex_before(b.octets, c.octets) {
            lemma_lex_transitive(a.octets, b.octets, c.octets);
        }
    }

    proof fn connected(a: IpModel, b: IpModel) {
        lemma_lex_connected(a.octets, b.octets);
    }

    fn precedes(&self, other: &Self) -> (b: bool) {
        proof {
            lemma_lex_irreflexive(self@.octets);
        }
        match (self, other) {
            (IpSocket::V4 { octets: a, port: p }, IpSocket::V4 { octets: b, port: q }) => {
                if bytes_equal(a.as_slice(), b.as_slice()) {
                    *p < *q
                } else {
                    bytes_precede(a.as_slice(), b.as_slice())
                }
            },
            (IpSocket::V4 { .. }, IpSocket::V6 { .. }) => true,
            (IpSocket::V6 { .. }, IpSocket::V4 { .. }) => false,
            (
                IpSocket::V6 { octets: a, port: p, flowinfo: f, scope_id: s },
                IpSocket::V6 { octets: b, port: q, flowinfo: g, scope_id: t },
            ) => {
                if bytes_equal(a.as_slice(), b.as_slice()) {
                    *p < *q || (*p == *q && (*f < *g || (*f == *g && *s < *t)))
                } else {
                    bytes_precede(a.as_slice(), b.as_slice())
                }
            },
        }
    }

    fn same(&self, other: &Self) -> (b: bool) {
        match (self, other) {
            (IpSocket::V4 { octets: a, port: p }, IpSocket::V4 { octets: b, port: q }) => {
                bytes_equal(a.as_slice(), b.as_slice()) && *p == *q
            },
            (
                IpSocket::V6 { octets: a, port: p, flowinfo: f, scope_id: s },
                IpSocket::V6 { octets: b, port: q, flowinfo: g, scope_id: t },
            ) => bytes_equal(a.as_slice(), b.as_slice()) && *p == *q && *f == *g && *s == *t,
            _ => false,
        }
    }
}

/// The address of a node: its id, the socket addresses it is reached at,
/// and its relays.
pub struct NodeAddr {
    id: [u8; 32],
    ips: SortedSet<IpSocket>,
    relays: SortedSet<String>,
}

/// The mathematical value of a [`NodeAddr`].
#[verifier::ext_equal]
pub struct NodeAddrModel {
    pub id: Seq<u8>,
    pub ips: Set<IpModel>,
    /// The texts of the relays' URLs.
    pub relays: Set<Seq<char>>,
}

impl View for NodeAddr {
    type V = NodeAddrModel;

    closed spec fn view(&self) -> NodeAddrModel {
        NodeAddrModel { id: self.id@, ips: self.ips@, relays: self.relays@ }
    }
}

impl NodeAddr {
    pub closed spec fn wf(&self) -> bool {
        self.ips.wf() && self.relays.wf()
    }

    /// The id is that of a node.
    pub open spec fn inv(&self) -> bool {
        self.wf() && is_node_id(self@.id)
    }

    /// An address without routes.
    pub fn new(id: [u8; 32]) -> (r: Result<Self, NodeAddrError>)
        ensures
            match r {
                Ok(address) => is_node_id(id@) && address.inv() && address@ == (NodeAddrModel {
                    id: id@,
                    ips: Set::empty(),
                    relays: Set::empty(),
                }),
                Err(error) => !is_node_id(id@) && error == NodeAddrError,
            },
    {
        if node_id_parses(&id) {
            Ok(NodeAddr { id, ips: SortedSet::new(), relays: SortedSet::new() })
        } else {
            Err(NodeAddrError)
        }
    }

    /// Adds a socket address.
    pub fn with_ip_addr(&mut self, socket: IpSocket)
        requires
            old(self).inv(),
        ensures
            final(self).inv(),
            final(self)@ == (NodeAddrModel {
                ips: old(self)@.ips.insert(socket@),
                ..old(self)@
            }),
    {
        self.ips.insert(socket);
    }

    /// Adds a relay, when the text is a relay URL.
    pub fn with_relay_url(&mut self, text: &str) -> (r: Result<(), NodeAddrError>)
        requires
            old(self).inv(),
        ensures
            final(self).inv(),
            match relay_url(text@) {
                Some(url) => r is Ok && final(self)@ == (NodeAddrModel {
                    relays: old(self)@.relays.insert(url),
                    ..old(self)@
                }),
                None => r is Err && final(self)@ == old(self)@,
            },
    {
        match relay_url_text(text) {
            Some(url) => {
                self.relays.insert(url);
                Ok(())
            },
            None => Err(NodeAddrError),
        }
    }

    pub fn id(&self) -> (r: &[u8; 32])
        ensures
            r@ == self@.id,
    {
        &self.id
    }

    /// The socket addresses in order.
    pub closed spec fn sockets(&self) -> Seq<IpModel> {
        self.ips.keys()
    }

    /// The relays in order.
    pub closed spec fn urls(&self) -> Seq<Seq<char>> {
        self.relays.keys()
    }

    /// The orders are those of the sets.
    pub proof fn lemma_orders(&self)
        requires
            self.wf(),
        ensures
            self.sockets() == in_order::<IpSocket>(self@.ips),
            self.urls() == in_order::<String>(self@.relays),
            crate::order::lists(self.sockets(), self@.ips),
            crate::order::lists(self.urls(), self@.relays),
    {
        self.ips.lemma_keys();
        self.relays.lemma_keys();
    }

    pub fn ip_count(&self) -> (n: usize)
        ensures
            n == self.sockets().len(),
    {
        self.ips.len()
    }

    pub fn ip(&self, i: usize) -> (r: IpSocket)
        requires
            i < self.sockets().len(),
        ensures
            r@ == self.sockets()[i as int],
    {
        *self.ips.key(i)
    }

    pub fn relay_count(&self) -> (n: usize)
        ensures
            n == self.urls().len(),
    {
        self.relays.len()
    }

    pub fn relay(&self, i: usize) -> (r: &String)
        requires
            i < self.urls().len(),
        ensures
            r@ == self.urls()[i as int],
    {
        self.relays.key(i)
    }
}

/// The lowest sixteen bits of a number, lowest byte first.
pub open spec fn u16_le(x: int) -> Seq<u8> {
    seq![(x % 256) as u8, ((x / 256) % 256) as u8]
}

/// The lowest thirty-two bits of a number, lowest byte first.
pub open spec fn u32_le(x: int) -> Seq<u8> {
    u16_le(x) + u16_le(x / 65536)
}

pub open spec fn u16_at(bytes: Seq<u8>, at: int) -> int {
    bytes[at] + 256 * bytes[at + 1]
}

pub open spec fn u32_at(bytes: Seq<u8>, at: int) -> int {
    u16_at(bytes, at) + 65536 * u16_at(bytes, at + 2)
}

/// One encoded socket address.
pub open spec fn ip_bytes(ip: IpModel) -> Seq<u8> {
    seq![if ip.v6 { 0x06u8 } else { 0x04u8 }] + ip.octets + u16_le(ip.port as int)
}

/// Encoded socket addresses.
pub open spec fn ips_bytes(ips: Seq<IpModel>) -> Seq<u8>
    decreases ips.len(),
{
    if ips.len() == 0 {
        Seq::empty()
    } else {
        ips_bytes(ips.drop_last()) + ip_bytes(ips.last())
    }
}

/// One encoded relay.
pub open spec fn relay_bytes(text: Seq<char>) -> Seq<u8> {
    u32_le(encode_utf8(text).len() as int) + encode_utf8(text)
}

/// Encoded relays.
pub open spec fn relays_bytes(relays: Seq<Seq<char>>) -> Seq<u8>
    decreases relays.len(),
{
    if relays.len() == 0 {
        Seq::empty()
    } else {
        relays_bytes(relays.drop_last()) + relay_bytes(relays.last())
    }
}

/// The bytes of an address, from its routes in order.
pub open spec fn ordered_bytes(id: Seq<u8>, ips: Seq<IpModel>, relays: Seq<Seq<char>>) -> Seq<u8> {
    seq![NODE_ADDR_VERSION] + id + u16_le(ips.len() as int) + ips_bytes(ips) + u16_le(
        relays.len() as int,
    ) + relays_bytes(relays)
}

/// The bytes of an address.
pub open spec fn route_bytes(address: NodeAddrModel) -> Seq<u8> {
    ordered_bytes(
        address.id,
        in_order::<IpSocket>(address.ips),
        in_order::<String>(address.relays),
    )
}

/// The socket address at a place, and the place behind it.
pub open spec fn ip_at(bytes: Seq<u8>, at: int) -> Option<(IpModel, int)> {
    if !(at < bytes.len()) {
        None
    } else if bytes[at] == 0x04 && at + 7 <= bytes.len() {
        Some(
            (
                IpModel {
                    v6: false,
                    octets: bytes.subrange(at + 1, at + 5),
                    port: u16_at(bytes, at + 5) as u16,
                    flowinfo: 0,
                    scope_id: 0,
                },
                at + 7,
            ),
        )
    } else if bytes[at] == 0x06 && at + 19 <= bytes.len() {
        Some(
            (
                IpModel {
                    v6: true,
                    octets: bytes.subrange(at + 1, at + 17),
                    port: u16_at(bytes, at + 17) as u16,
                    flowinfo: 0,
                    scope_id: 0,
                },
                at + 19,
            ),
        )
    } else {
        None
    }
}

/// The first socket addresses from a place on, and the place behind them.
pub open spec fn ips_at(bytes: Seq<u8>, at: int, count: nat) -> Option<(Set<IpModel>, int)>
    decreases count,
{
    if count == 0 {
        Some((Set::empty(), at))
    } else {
        match ips_at(bytes, at, (count - 1) as nat) {
            None => None,
            Some((ips, next)) => match ip_at(bytes, next) {
                None => None,
                Some((ip, end)) => Some((ips.insert(ip), end)),
            },
        }
    }
}

/// The relay at a place, and the place behind it.
pub open spec fn relay_at(bytes: Seq<u8>, at: int) -> Option<(Seq<char>, int)> {
    if at + 4 > bytes.len() || at + 4 + u32_at(bytes, at) > bytes.len() {
        None
    } else {
        let end = at + 4 + u32_at(bytes, at);
        let text = bytes.subrange(at + 4, end);
        if !valid_utf8(text) {
            None
        } else {
            match relay_url(decode_utf8(text)) {
                None => None,
                Some(url) => Some((url, end)),
            }
        }
    }
}

/// The first relays from a place on, and the place behind them.
pub open spec fn relays_at(bytes: Seq<u8>, at: int, count: nat) -> Option<(Set<Seq<char>>, int)>
    decreases count,
{
    if count == 0 {
        Some((Set::empty(), at))
    } else {
        match relays_at(bytes, at, (count - 1) as nat) {
            None => None,
            Some((relays, next)) => match relay_at(bytes, next) {
                None => None,
                Some((relay, end)) => Some((relays.insert(relay), end)),
            },
        }
    }
}

/// The address that route bytes encode, if they do. Another version, a
/// truncated field and trailing bytes are all refused.
pub open spec fn parse_route(bytes: Seq<u8>) -> Option<NodeAddrModel> {
    if bytes.len() < 35 || bytes[0] != NODE_ADDR_VERSION || !is_node_id(bytes.subrange(1, 33)) {
        None
    } else {
        match ips_at(bytes, 35, u16_at(bytes, 33) as nat) {
            None => None,
            Some((ips, at)) => if at + 2 > bytes.len() {
                None
            } else {
                match relays_at(bytes, at + 2, u16_at(bytes, at) as nat) {
                    None => None,
                    Some((relays, end)) => if end != bytes.len() {
                        None
                    } else {
                        Some(NodeAddrModel { id: bytes.subrange(1, 33), ips, relays })
                    },
                }
            },
        }
    }
}

/// A prefix that fails fails the whole.
proof fn lemma_ips_fail(bytes: Seq<u8>, at: int, few: nat, count: nat)
    requires
        few <= count,
        ips_at(bytes, at, few) is None,
    ensures
        ips_at(bytes, at, count) is None,
    decreases count,
{
    if few < count {
        lemma_ips_fail(bytes, at, few, (count - 1) as nat);
    }
}

/// A prefix that fails fails the whole.
proof fn lemma_relays_fail(bytes: Seq<u8>, at: int, few: nat, count: nat)
    requires
        few <= count,
        relays_at(bytes, at, few) is None,
    ensures
        relays_at(bytes, at, count) is None,
    decreases count,
{
    if few < count {
        lemma_relays_fail(bytes, at, few, (count - 1) as nat);
    }
}

fn push_u16(out: &mut Vec<u8>, x: u16)
    ensures
        final(out)@ == old(out)@ + u16_le(x as int),
{
    out.push((x % 256) as u8);
    out.push((x / 256) as u8);
    proof {
        assert(out@ =~= old(out)@ + u16_le(x as int));
    }
}

fn push_u32(out: &mut Vec<u8>, x: u32)
    ensures
        final(out)@ == old(out)@ + u32_le(x as int),
{
    push_u16(out, (x % 65536) as u16);
    push_u16(out, (x / 65536) as u16);
    proof {
        assert(u16_le((x % 65536) as int) =~= u16_le(x as int)) by {
            assert((x % 65536) % 256 == x % 256);
            assert(((x % 65536) / 256) % 256 == (x / 256) % 256);
        }
        assert(out@ =~= old(out)@ + u32_le(x as int));
    }
}

fn read_u16(bytes: &[u8], at: usize) -> (r: Option<u16>)
    ensures
        match r {
            Some(x) => at + 2 <= bytes@.len() && x == u16_at(bytes@, at as int),
            None => at + 2 > bytes@.len(),
        },
{
    if bytes.len() < 2 || at > bytes.len() - 2 {
        return None;
    }
    Some(bytes[at] as u16 + 256 * (bytes[at + 1] as u16))
}

fn read_u32(bytes: &[u8], at: usize) -> (r: Option<u32>)
    ensures
        match r {
            Some(x) => at + 4 <= bytes@.len() && x == u32_at(bytes@, at as int),
            None => at + 4 > bytes@.len(),
        },
{
    if bytes.len() < 4 || at > bytes.len() - 4 {
        return None;
    }
    match (read_u16(bytes, at), read_u16(bytes, at + 2)) {
        (Some(low), Some(high)) => Some(low as u32 + 65536 * (high as u32)),
        _ => None,
    }
}

fn push_ip(out: &mut Vec<u8>, ip: &IpSocket)
    ensures
        final(out)@ == old(out)@ + ip_bytes(ip@),
{
    let port: u16 = match ip {
        IpSocket::V4 { octets, port } => {
            out.push(0x04);
            out.extend_from_slice(octets.as_slice());
            *port
        },
        IpSocket::V6 { octets, port, .. } => {
            out.push(0x06);
            out.extend_from_slice(octets.as_slice());
            *port
        },
    };
    push_u16(out, port);
    proof {
        assert(out@ =~= old(out)@ + ip_bytes(ip@));
    }
}

fn push_relay(out: &mut Vec<u8>, relay: &String)
    ensures
        final(out)@ == old(out)@ + relay_bytes(relay@),
{
    let text = relay.as_str().as_bytes();
    let len: usize = text.len();
    let wide: u64 = len as u64;
    proof {
        lemma_u32_le_low(len as int);
    }
    push_u32(out, (wide % 0x1_0000_0000) as u32);
    out.extend_from_slice(text);
    proof {
        assert(out@ =~= old(out)@ + relay_bytes(relay@));
    }
}

/// Whole multiples of 256 do not touch the lowest byte.
proof fn lemma_lowest_byte(z: int, y: int)
    requires
        0 <= z,
        0 <= y,
    ensures
        (256 * z + y) % 256 == y % 256,
        (256 * z + y) / 256 == z + y / 256,
{
}

/// Only the lowest thirty-two bits are written.
proof fn lemma_u32_le_low(x: int)
    requires
        0 <= x,
    ensures
        u32_le(x % 0x1_0000_0000) == u32_le(x),
{
    let y = x % 0x1_0000_0000;
    let q = x / 0x1_0000_0000;
    assert(x == 0x1_0000_0000 * q + y);
    let y1 = y / 256;
    let y2 = y1 / 256;
    let y3 = y2 / 256;
    lemma_lowest_byte(0x100_0000 * q, y);
    assert(x / 256 == 0x100_0000 * q + y1);
    lemma_lowest_byte(0x1_0000 * q, y1);
    assert(x / 256 / 256 == 0x1_0000 * q + y2);
    lemma_lowest_byte(0x100 * q, y2);
    assert(x / 256 / 256 / 256 == 0x100 * q + y3);
    lemma_lowest_byte(q, y3);
    assert(x / 65536 == x / 256 / 256);
    assert(y / 65536 == y2);
    assert(u32_le(y) =~= u32_le(x));
}

/// Encodes an address. Only the lowest sixteen bits of the counts, and the
/// lowest thirty-two of a relay's length, are written.
pub fn encode_node_addr(address: &NodeAddr) -> (r: Vec<u8>)
    requires
        address.inv(),
    ensures
        r@ == route_bytes(address@),
{
    let ghost ips = address.ips.keys();
    let ghost relays = address.relays.keys();
    proof {
        address.lemma_orders();
    }
    let mut out: Vec<u8> = Vec::new();
    out.push(NODE_ADDR_VERSION);
    out.extend_from_slice(address.id.as_slice());
    let ip_count: usize = address.ips.len();
    proof {
        lemma_u16_le_low(ip_count as int);
    }
    push_u16(&mut out, (ip_count % 0x1_0000) as u16);
    let ghost head = out@;
    let mut i: usize = 0;
    proof {
        assert(ips.take(0) =~= Seq::empty());
        assert(out@ =~= head + ips_bytes(ips.take(0)));
    }
    while i < ip_count
        invariant
            ips == address.ips.keys(),
            ip_count == ips.len(),
            i <= ip_count,
            out@ == head + ips_bytes(ips.take(i as int)),
        decreases ip_count - i,
    {
        proof {
            assert(ips.take(i + 1).drop_last() =~= ips.take(i as int));
            assert(ips.take(i + 1).last() == ips[i as int]);
            assert(head + ips_bytes(ips.take(i as int)) + ip_bytes(ips[i as int]) =~= head
                + ips_bytes(ips.take(i + 1)));
        }
        push_ip(&mut out, address.ips.key(i));
        i = i + 1;
    }
    proof {
        assert(ips.take(i as int) =~= ips);
    }
    let relay_count: usize = address.relays.len();
    proof {
        lemma_u16_le_low(relay_count as int);
    }
    push_u16(&mut out, (relay_count % 0x1_0000) as u16);
    let ghost body = out@;
    let mut j: usize = 0;
    proof {
        assert(relays.take(0) =~= Seq::empty());
        assert(out@ =~= body + relays_bytes(relays.take(0)));
    }
    while j < relay_count
        invariant
            relays == address.relays.keys(),
            relay_count == relays.len(),
            j <= relay_count,
            out@ == body + relays_bytes(relays.take(j as int)),
        decreases relay_count - j,
    {
        proof {
            assert(relays.take(j + 1).drop_last() =~= relays.take(j as int));
            assert(relays.take(j + 1).last() == relays[j as int]);
            assert(body + relays_bytes(relays.take(j as int)) + relay_bytes(relays[j as int])
                =~= body + relays_bytes(relays.take(j + 1)));
        }
        push_relay(&mut out, address.relays.key(j));
        j = j + 1;
    }
    proof {
        assert(relays.take(j as int) =~= relays);
        assert(out@ =~= route_bytes(address@));
    }
    out
}

/// Only the lowest sixteen bits are written.
proof fn lemma_u16_le_low(x: int)
    requires
        0 <= x,
    ensures
        u16_le(x % 0x1_0000) == u16_le(x),
{
    let y = x % 0x1_0000;
    assert(y % 256 == x % 256);
    assert((y / 256) % 256 == (x / 256) % 256);
}

fn read_ip(bytes: &[u8], at: usize) -> (r: Option<(IpSocket, usize)>)
    ensures
        match r {
            Some((ip, end)) => ip_at(bytes@, at as int) == Some((ip@, end as int)) && end
                <= bytes@.len(),
            None => ip_at(bytes@, at as int) is None,
        },
{
    if at >= bytes.len() {
        return None;
    }
    let len: usize = bytes.len();
    let room: usize = len - at;
    if bytes[at] == 0x04 && room >= 7 {
        let octets: [u8; 4] = [bytes[at + 1], bytes[at + 2], bytes[at + 3], bytes[at + 4]];
        proof {
            assert(octets@ =~= bytes@.subrange(at + 1, at + 5));
        }
        match read_u16(bytes, at + 5) {
            Some(port) => Some((IpSocket::V4 { octets, port }, at + 7)),
            None => None,
        }
    } else if bytes[at] == 0x06 && room >= 19 {
        let mut octets: [u8; 16] = [0u8;16];
        let mut i: usize = 0;
        while i < 16
            invariant
                i <= 16,
                len == bytes@.len(),
                at + 19 <= len,
                forall|j: int| 0 <= j < i ==> octets@[j] == bytes@[at + 1 + j],
            decreases 16 - i,
        {
            octets[i] = bytes[at + 1 + i];
            i = i + 1;
        }
        proof {
            assert(octets@ =~= bytes@.subrange(at + 1, at + 17));
        }
        match read_u16(bytes, at + 17) {
            Some(port) => Some(
                (IpSocket::V6 { octets, port, flowinfo: 0, scope_id: 0 }, at + 19),
            ),
            None => None,
        }
    } else {
        None
    }
}

fn read_relay(bytes: &[u8], at: usize) -> (r: Option<(String, usize)>)
    ensures
        match r {
            Some((url, end)) => relay_at(bytes@, at as int) == Some((url@, end as int)) && end
                <= bytes@.len(),
            None => relay_at(bytes@, at as int) is None,
        },
{
    let len: usize = match read_u32(bytes, at) {
        Some(len) => len as usize,
        None => return None,
    };
    let total: usize = bytes.len();
    let start: usize = at + 4;
    if len > total - start {
        return None;
    }
    let end: usize = start + len;
    match utf8_text(vstd::slice::slice_subrange(bytes, start, end)) {
        Some(text) => {
            proof {
                vstd::utf8::encode_utf8_decode_utf8(text@);
            }
            match relay_url_text(text) {
                Some(url) => Some((url, end)),
                None => None,
            }
        },
        None => None,
    }
}

/// Decodes route bytes.
pub fn decode_node_addr(bytes: &[u8]) -> (r: Result<NodeAddr, NodeAddrError>)
    ensures
        match r {
            Ok(address) => address.inv() && parse_route(bytes@) == Some(address@),
            Err(error) => parse_route(bytes@) is None && error == NodeAddrError,
        },
{
    if bytes.len() < 33 || bytes[0] != NODE_ADDR_VERSION {
        return Err(NodeAddrError);
    }
    let mut id: [u8; 32] = [0u8;32];
    let mut i: usize = 0;
    while i < 32
        invariant
            i <= 32,
            bytes@.len() >= 33,
            forall|j: int| 0 <= j < i ==> id@[j] == bytes@[j + 1],
        decreases 32 - i,
    {
        id[i] = bytes[i + 1];
        i = i + 1;
    }
    proof {
        assert(id@ =~= bytes@.subrange(1, 33));
    }
    if !node_id_parses(&id) {
        return Err(NodeAddrError);
    }
    let ip_count: u16 = match read_u16(bytes, 33) {
        Some(count) => count,
        None => return Err(NodeAddrError),
    };
    let mut ips: SortedSet<IpSocket> = SortedSet::new();
    let mut at: usize = 35;
    let mut n: u16 = 0;
    while n < ip_count
        invariant
            ips.wf(),
            bytes@.len() >= 35,
            bytes@[0] == NODE_ADDR_VERSION,
            ip_count == u16_at(bytes@, 33),
            n <= ip_count,
            at <= bytes@.len(),
            ips_at(bytes@, 35, n as nat) == Some((ips@, at as int)),
        decreases ip_count - n,
    {
        match read_ip(bytes, at) {
            Some((ip, end)) => {
                ips.insert(ip);
                at = end;
            },
            None => {
                proof {
                    assert(ips_at(bytes@, 35, (n + 1) as nat) is None);
                    lemma_ips_fail(bytes@, 35, (n + 1) as nat, ip_count as nat);
                }
                return Err(NodeAddrError);
            },
        }
        n = n + 1;
    }
    let relay_count: u16 = match read_u16(bytes, at) {
        Some(count) => count,
        None => return Err(NodeAddrError),
    };
    let ghost first = at + 2;
    let ghost counted = at as int;
    at = at + 2;
    let mut relays: SortedSet<String> = SortedSet::new();
    let mut m: u16 = 0;
    while m < relay_count
        invariant
            relays.wf(),
            bytes@.len() >= 35,
            bytes@[0] == NODE_ADDR_VERSION,
            ips_at(bytes@, 35, u16_at(bytes@, 33) as nat) == Some((ips@, counted)),
            first == counted + 2,
            first <= bytes@.len(),
            relay_count == u16_at(bytes@, counted),
            m <= relay_count,
            at <= bytes@.len(),
            relays_at(bytes@, first, m as nat) == Some((relays@, at as int)),
        decreases relay_count - m,
    {
        match read_relay(bytes, at) {
            Some((url, end)) => {
                relays.insert(url);
                at = end;
            },
            None => {
                proof {
                    assert(relays_at(bytes@, first, (m + 1) as nat) is None);
                    lemma_relays_fail(bytes@, first, (m + 1) as nat, relay_count as nat);
                }
                return Err(NodeAddrError);
            },
        }
        m = m + 1;
    }
    if at != bytes.len() {
        return Err(NodeAddrError);
    }
    Ok(NodeAddr { id, ips, relays })
}

/// The members of a sequence.
pub open spec fn gathered<T>(s: Seq<T>) -> Set<T>
    decreases s.len(),
{
    if s.len() == 0 {
        Set::empty()
    } else {
        gathered(s.drop_last()).insert(s.last())
    }
}

proof fn lemma_gathered<T>(s: Seq<T>, x: T)
    ensures
        gathered(s).contains(x) <==> s.contains(x),
    decreases s.len(),
{
    if s.len() > 0 {
        lemma_gathered(s.drop_last(), x);
        if s.drop_last().contains(x) {
            let i = s.drop_last().index_of(x);
            assert(s[i] == x);
        }
        if s.contains(x) && x != s.last() {
            let i = s.index_of(x);
            assert(s.drop_last()[i] == x);
        }
        assert(s[s.len() - 1] == s.last());
    }
}

/// Whether a route can carry the whole of an address: sockets without flow
/// or scope, relays whose text is a URL's own, and counts and lengths that
/// fit their fields.
pub open spec fn routable(address: NodeAddrModel) -> bool {
    let ips = in_order::<IpSocket>(address.ips);
    let relays = in_order::<String>(address.relays);
    &&& address.id.len() == 32
    &&& ips.len() < 0x1_0000
    &&& relays.len() < 0x1_0000
    &&& forall|ip: IpModel| #[trigger] address.ips.contains(ip) ==> ip.valid() && ip.plain()
    &&& forall|relay: Seq<char>| #[trigger]
        address.relays.contains(relay) ==> relay_url(relay) == Some(relay) && encode_utf8(
            relay,
        ).len() < 0x1_0000_0000
}

impl NodeAddr {
    /// Whether a route can carry the whole of this address, so that its
    /// encoding decodes to it.
    pub fn is_routable(&self) -> (b: bool)
        requires
            self.inv(),
        ensures
            b == routable(self@),
    {
        proof {
            self.lemma_orders();
        }
        if self.ip_count() >= 0x1_0000 || self.relay_count() >= 0x1_0000 {
            return false;
        }
        let mut i: usize = 0;
        while i < self.ip_count()
            invariant
                self.inv(),
                crate::order::lists(self.sockets(), self@.ips),
                i <= self.sockets().len(),
                forall|j: int|
                    0 <= j < i ==> (#[trigger] self.sockets()[j]).valid()
                        && self.sockets()[j].plain(),
            decreases self.sockets().len() - i,
        {
            if let IpSocket::V6 { flowinfo, scope_id, .. } = self.ip(i) {
                if flowinfo != 0 || scope_id != 0 {
                    proof {
                        assert(self.sockets().contains(self.sockets()[i as int]));
                        assert(self@.ips.contains(self.sockets()[i as int]));
                    }
                    return false;
                }
            }
            i = i + 1;
        }
        let mut k: usize = 0;
        while k < self.relay_count()
            invariant
                self.inv(),
                crate::order::lists(self.urls(), self@.relays),
                k <= self.urls().len(),
                forall|j: int|
                    0 <= j < k ==> relay_url(#[trigger] self.urls()[j]) == Some(self.urls()[j])
                        && encode_utf8(self.urls()[j]).len() < 0x1_0000_0000,
            decreases self.urls().len() - k,
        {
            let relay = self.relay(k);
            let own: bool = match relay_url_text(relay.as_str()) {
                Some(url) => url.same(relay),
                None => false,
            };
            let length: usize = relay.as_str().as_bytes().len();
            if !own || length as u64 >= 0x1_0000_0000u64 {
                proof {
                    assert(self.urls().contains(self.urls()[k as int]));
                    assert(self@.relays.contains(self.urls()[k as int]));
                }
                return false;
            }
            k = k + 1;
        }
        proof {
            assert forall|ip: IpModel| #[trigger] self@.ips.contains(ip) implies ip.valid()
                && ip.plain() by {
                assert(self.sockets().contains(ip));
                assert(self.sockets()[self.sockets().index_of(ip)] == ip);
            }
            assert forall|relay: Seq<char>| #[trigger]
                self@.relays.contains(relay) implies relay_url(relay) == Some(relay)
                && encode_utf8(relay).len() < 0x1_0000_0000 by {
                assert(self.urls().contains(relay));
                assert(self.urls()[self.urls().index_of(relay)] == relay);
            }
        }
        true
    }
}

proof fn lemma_u16_round_trip(bytes: Seq<u8>, at: int, x: int)
    requires
        0 <= x < 0x1_0000,
        0 <= at,
        at + 2 <= bytes.len(),
        bytes.subrange(at, at + 2) == u16_le(x),
    ensures
        u16_at(bytes, at) == x,
{
    assert(bytes[at] == bytes.subrange(at, at + 2)[0]);
    assert(bytes[at + 1] == bytes.subrange(at, at + 2)[1]);
}

proof fn lemma_u32_round_trip(bytes: Seq<u8>, at: int, x: int)
    requires
        0 <= x < 0x1_0000_0000,
        0 <= at,
        at + 4 <= bytes.len(),
        bytes.subrange(at, at + 4) == u32_le(x),
    ensures
        u32_at(bytes, at) == x,
{
    let four = bytes.subrange(at, at + 4);
    assert(bytes[at] == four[0]);
    assert(bytes[at + 1] == four[1]);
    assert(bytes[at + 2] == four[2]);
    assert(bytes[at + 3] == four[3]);
}

/// Encoded socket addresses are read back.
proof fn lemma_ips_round_trip(bytes: Seq<u8>, at: int, ips: Seq<IpModel>)
    requires
        0 <= at,
        at + ips_bytes(ips).len() <= bytes.len(),
        bytes.subrange(at, at + ips_bytes(ips).len()) == ips_bytes(ips),
        forall|i: int| 0 <= i < ips.len() ==> (#[trigger] ips[i]).valid() && ips[i].plain(),
    ensures
        ips_at(bytes, at, ips.len()) == Some((gathered(ips), at + ips_bytes(ips).len())),
    decreases ips.len(),
{
    if ips.len() > 0 {
        let rest = ips.drop_last();
        let ip = ips.last();
        let all = ips_bytes(ips);
        let head = ips_bytes(rest).len() as int;
        assert(all =~= ips_bytes(rest) + ip_bytes(ip));
        assert(bytes.subrange(at, at + head) =~= ips_bytes(rest)) by {
            assert(bytes.subrange(at, at + head) =~= bytes.subrange(at, at + all.len()).take(head));
            assert(all.take(head) =~= ips_bytes(rest));
        }
        assert forall|i: int| 0 <= i < rest.len() implies (#[trigger] rest[i]).valid()
            && rest[i].plain() by {
            assert(rest[i] == ips[i]);
        }
        lemma_ips_round_trip(bytes, at, rest);
        let here = at + head;
        let one = ip_bytes(ip);
        assert(ip == ips[ips.len() - 1]);
        assert(bytes.subrange(here, here + one.len()) =~= one) by {
            assert(bytes.subrange(here, here + one.len()) =~= bytes.subrange(
                at,
                at + all.len(),
            ).skip(head));
            assert(all.skip(head) =~= one);
        }
        let width = ip.octets.len() as int;
        assert(one[0] == bytes[here]) by {
            assert(bytes.subrange(here, here + one.len())[0] == bytes[here]);
        }
        assert(bytes.subrange(here + 1, here + 1 + width) =~= ip.octets) by {
            assert(one.subrange(1, 1 + width) =~= ip.octets);
            assert(bytes.subrange(here, here + one.len()).subrange(1, 1 + width)
                =~= bytes.subrange(here + 1, here + 1 + width));
        }
        assert(bytes.subrange(here + 1 + width, here + 3 + width) =~= u16_le(ip.port as int)) by {
            assert(one.subrange(1 + width, 3 + width) =~= u16_le(ip.port as int));
            assert(bytes.subrange(here, here + one.len()).subrange(1 + width, 3 + width)
                =~= bytes.subrange(here + 1 + width, here + 3 + width));
        }
        lemma_u16_round_trip(bytes, here + 1 + width, ip.port as int);
        assert(ip_at(bytes, here) == Some((ip, here + one.len())));
    }
}

/// Encoded relays are read back.
proof fn lemma_relays_round_trip(bytes: Seq<u8>, at: int, relays: Seq<Seq<char>>)
    requires
        0 <= at,
        at + relays_bytes(relays).len() <= bytes.len(),
        bytes.subrange(at, at + relays_bytes(relays).len()) == relays_bytes(relays),
        forall|i: int|
            0 <= i < relays.len() ==> relay_url(#[trigger] relays[i]) == Some(relays[i])
                && encode_utf8(relays[i]).len() < 0x1_0000_0000,
    ensures
        relays_at(bytes, at, relays.len()) == Some(
            (gathered(relays), at + relays_bytes(relays).len()),
        ),
    decreases relays.len(),
{
    if relays.len() > 0 {
        let rest = relays.drop_last();
        let relay = relays.last();
        let all = relays_bytes(relays);
        let head = relays_bytes(rest).len() as int;
        assert(all =~= relays_bytes(rest) + relay_bytes(relay));
        assert(bytes.subrange(at, at + head) =~= relays_bytes(rest)) by {
            assert(bytes.subrange(at, at + head) =~= bytes.subrange(at, at + all.len()).take(head));
            assert(all.take(head) =~= relays_bytes(rest));
        }
        assert forall|i: int| 0 <= i < rest.len() implies relay_url(#[trigger] rest[i]) == Some(
            rest[i],
        ) && encode_utf8(rest[i]).len() < 0x1_0000_0000 by {
            assert(rest[i] == relays[i]);
        }
        lemma_relays_round_trip(bytes, at, rest);
        let here = at + head;
        let one = relay_bytes(relay);
        let text = encode_utf8(relay);
        assert(relay == relays[relays.len() - 1]);
        assert(bytes.subrange(here, here + one.len()) =~= one) by {
            assert(bytes.subrange(here, here + one.len()) =~= bytes.subrange(
                at,
                at + all.len(),
            ).skip(head));
            assert(all.skip(head) =~= one);
        }
        assert(bytes.subrange(here, here + 4) =~= u32_le(text.len() as int)) by {
            assert(one.subrange(0, 4) =~= u32_le(text.len() as int));
            assert(bytes.subrange(here, here + one.len()).subrange(0, 4) =~= bytes.subrange(
                here,
                here + 4,
            ));
        }
        lemma_u32_round_trip(bytes, here, text.len() as int);
        assert(bytes.subrange(here + 4, here + 4 + text.len()) =~= text) by {
            assert(one.subrange(4, 4 + text.len() as int) =~= text);
            assert(bytes.subrange(here, here + one.len()).subrange(4, 4 + text.len() as int)
                =~= bytes.subrange(here + 4, here + 4 + text.len()));
        }
        vstd::utf8::encode_utf8_valid_utf8(relay);
        vstd::utf8::encode_utf8_decode_utf8(relay);
        assert(relay_at(bytes, here) == Some((relay, here + one.len())));
    }
}

/// Decoding gives back what was encoded: whatever address a route can carry
/// whole, its bytes are read as that address.
pub proof fn law_routes_round_trip(address: NodeAddr)
    requires
        address.inv(),
        routable(address@),
    ensures
        parse_route(route_bytes(address@)) == Some(address@),
{
    address.lemma_orders();
    let ips = address.sockets();
    let relays = address.urls();
    let id = address@.id;
    let bytes = route_bytes(address@);
    let packed = ips_bytes(ips);
    let named = relays_bytes(relays);
    let mid: int = 35 + packed.len() as int;
    assert(bytes.len() == mid + 2 + named.len());
    assert(bytes[0] == NODE_ADDR_VERSION);
    assert(bytes.subrange(1, 33) =~= id);
    assert(bytes.subrange(33, 35) =~= u16_le(ips.len() as int));
    lemma_u16_round_trip(bytes, 33, ips.len() as int);
    assert(bytes.subrange(35, mid) =~= packed);
    assert forall|i: int| 0 <= i < ips.len() implies (#[trigger] ips[i]).valid()
        && ips[i].plain() by {
        assert(ips.contains(ips[i]));
        assert(address@.ips.contains(ips[i]));
    }
    lemma_ips_round_trip(bytes, 35, ips);
    assert(bytes.subrange(mid, mid + 2) =~= u16_le(relays.len() as int));
    lemma_u16_round_trip(bytes, mid, relays.len() as int);
    assert(bytes.subrange(mid + 2, bytes.len() as int) =~= named);
    assert forall|i: int| 0 <= i < relays.len() implies relay_url(#[trigger] relays[i]) == Some(
        relays[i],
    ) && encode_utf8(relays[i]).len() < 0x1_0000_0000 by {
        assert(relays.contains(relays[i]));
        assert(address@.relays.contains(relays[i]));
    }
    lemma_relays_round_trip(bytes, mid + 2, relays);
    assert forall|ip: IpModel| gathered(ips).contains(ip) <==> address@.ips.contains(ip) by {
        lemma_gathered(ips, ip);
    }
    assert forall|relay: Seq<char>|
        gathered(relays).contains(relay) <==> address@.relays.contains(relay) by {
        lemma_gathered(relays, relay);
    }
    assert(gathered(ips) =~= address@.ips);
    assert(gathered(relays) =~= address@.relays);
}

/// Routes decode whatever order their parts are written in: any sockets
/// without flow or scope and any relays whose text is a URL's own are read
/// as the sets of them.
pub proof fn law_routes_decode_in_any_order(
    id: Seq<u8>,
    ips: Seq<IpModel>,
    relays: Seq<Seq<char>>,
)
    requires
        id.len() == 32,
        is_node_id(id),
        ips.len() < 0x1_0000,
        relays.len() < 0x1_0000,
        forall|i: int| 0 <= i < ips.len() ==> (#[trigger] ips[i]).valid() && ips[i].plain(),
        forall|i: int|
            0 <= i < relays.len() ==> relay_url(#[trigger] relays[i]) == Some(relays[i])
                && encode_utf8(relays[i]).len() < 0x1_0000_0000,
    ensures
        parse_route(ordered_bytes(id, ips, relays)) == Some(
            NodeAddrModel { id, ips: ips.to_set(), relays: relays.to_set() },
        ),
{
    let bytes = ordered_bytes(id, ips, relays);
    let packed = ips_bytes(ips);
    let named = relays_bytes(relays);
    let mid: int = 35 + packed.len() as int;
    assert(bytes.len() == mid + 2 + named.len());
    assert(bytes[0] == NODE_ADDR_VERSION);
    assert(bytes.subrange(1, 33) =~= id);
    assert(bytes.subrange(33, 35) =~= u16_le(ips.len() as int));
    lemma_u16_round_trip(bytes, 33, ips.len() as int);
    assert(bytes.subrange(35, mid) =~= packed);
    lemma_ips_round_trip(bytes, 35, ips);
    assert(bytes.subrange(mid, mid + 2) =~= u16_le(relays.len() as int));
    lemma_u16_round_trip(bytes, mid, relays.len() as int);
    assert(bytes.subrange(mid + 2, bytes.len() as int) =~= named);
    lemma_relays_round_trip(bytes, mid + 2, relays);
    assert forall|ip: IpModel| gathered(ips).contains(ip) <==> ips.to_set().contains(ip) by {
        lemma_gathered(ips, ip);
    }
    assert forall|relay: Seq<char>|
        gathered(relays).contains(relay) <==> relays.to_set().contains(relay) by {
        lemma_gathered(relays, relay);
    }
    assert(gathered(ips) =~= ips.to_set());
    assert(gathered(relays) =~= relays.to_set());
}

/// Two addresses that a route can carry whole and that have the same bytes
/// are the same address.
pub proof fn law_routes_tell_addresses_apart(a: NodeAddr, b: NodeAddr)
    requires
        a.inv(),
        b.inv(),
        routable(a@),
        routable(b@),
        route_bytes(a@) == route_bytes(b@),
    ensures
        a@ == b@,
{
    law_routes_round_trip(a);
    law_routes_round_trip(b);
}

/// Trailing bytes are refused: nothing longer than bytes that decode decodes
/// too.
pub proof fn law_trailing_bytes_are_refused(bytes: Seq<u8>, extra: Seq<u8>)
    requires
        parse_route(bytes) is Some,
        extra.len() > 0,
    ensures
        parse_route(bytes + extra) is None,
{
    let more = bytes + extra;
    let count = u16_at(bytes, 33) as nat;
    let (ips, at) = ips_at(bytes, 35, count)->0;
    lemma_ips_extend(bytes, extra, 35, count);
    assert(more.subrange(1, 33) =~= bytes.subrange(1, 33));
    assert(u16_at(more, at) == u16_at(bytes, at));
    lemma_relays_extend(bytes, extra, at + 2, u16_at(bytes, at) as nat);
}

/// Truncated bytes are refused: nothing shorter than bytes that decode, and
/// a beginning of them, decodes too.
pub proof fn law_truncated_bytes_are_refused(bytes: Seq<u8>, n: int)
    requires
        parse_route(bytes) is Some,
        0 <= n < bytes.len(),
    ensures
        parse_route(bytes.take(n)) is None,
{
    if parse_route(bytes.take(n)) is Some {
        law_trailing_bytes_are_refused(bytes.take(n), bytes.skip(n));
        assert(bytes.take(n) + bytes.skip(n) =~= bytes);
    }
}

/// Reading socket addresses goes forward only, and does not look past
/// their end.
proof fn lemma_ips_extend(bytes: Seq<u8>, extra: Seq<u8>, at: int, count: nat)
    requires
        0 <= at <= bytes.len(),
        ips_at(bytes, at, count) is Some,
    ensures
        ips_at(bytes + extra, at, count) == ips_at(bytes, at, count),
        ips_at(bytes, at, count) matches Some((_, end)) && at <= end <= bytes.len(),
    decreases count,
{
    if count > 0 {
        lemma_ips_extend(bytes, extra, at, (count - 1) as nat);
        let (_, next) = ips_at(bytes, at, (count - 1) as nat)->0;
        let more = bytes + extra;
        assert(more.subrange(next + 1, next + 5) =~= bytes.subrange(next + 1, next + 5)
            || bytes[next] != 0x04);
        assert(more.subrange(next + 1, next + 17) =~= bytes.subrange(next + 1, next + 17)
            || bytes[next] != 0x06);
        assert(ip_at(more, next) == ip_at(bytes, next));
    }
}

/// Reading relays goes forward only, and does not look past their end.
proof fn lemma_relays_extend(bytes: Seq<u8>, extra: Seq<u8>, at: int, count: nat)
    requires
        0 <= at <= bytes.len(),
        relays_at(bytes, at, count) is Some,
    ensures
        relays_at(bytes + extra, at, count) == relays_at(bytes, at, count),
        relays_at(bytes, at, count) matches Some((_, end)) && at <= end <= bytes.len(),
    decreases count,
{
    if count > 0 {
        lemma_relays_extend(bytes, extra, at, (count - 1) as nat);
        let (_, next) = relays_at(bytes, at, (count - 1) as nat)->0;
        let more = bytes + extra;
        let end = next + 4 + u32_at(bytes, next);
        assert(u32_at(more, next) == u32_at(bytes, next));
        assert(more.subrange(next + 4, end) =~= bytes.subrange(next + 4, end));
        assert(relay_at(more, next) == relay_at(bytes, next));
    }
}

} // verus!
