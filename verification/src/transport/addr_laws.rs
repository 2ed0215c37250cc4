//! How an address is laid out in route bytes.

use vstd::prelude::*;
use vstd::utf8::{encode_utf8, valid_utf8};

use crate::order::{in_order, Key};
use crate::transport::addr::{
    ip_at, ip_bytes, ips_at, ips_bytes, is_node_id, ordered_bytes, parse_route, relay_at,
    relay_bytes, relay_url, relays_at, relays_bytes, routable, route_bytes, u16_at, u16_le, u32_at,
    u32_le, IpModel, IpSocket, NodeAddrModel,
};

verus! {

/// Numbers are written lowest byte first, and read back so.
pub proof fn law_numbers_are_little_endian(x: int, bytes: Seq<u8>, at: int)
    ensures
        u16_le(x).len() == 2,
        u32_le(x).len() == 4,
        0 <= x < 0x1_0000 ==> u16_le(x)[0] + 256 * u16_le(x)[1] == x,
        0 <= x < 0x1_0000_0000 ==> u32_le(x)[0] + 256 * u32_le(x)[1] + 65536 * u32_le(x)[2]
            + 16777216 * u32_le(x)[3] == x,
        u16_at(bytes, at) == bytes[at] + 256 * bytes[at + 1],
        u32_at(bytes, at) == bytes[at] + 256 * bytes[at + 1] + 65536 * bytes[at + 2] + 16777216
            * bytes[at + 3],
{
}

/// A socket address is written as its family, its octets and its port,
/// lowest byte first.
pub proof fn law_sockets_are_laid_out(ip: IpModel, i: int)
    requires
        ip.valid(),
    ensures
        ip_bytes(ip).len() == if ip.v6 {
            19int
        } else {
            7int
        },
        ip_bytes(ip)[0] == if ip.v6 {
            6u8
        } else {
            4u8
        },
        0 <= i < ip.octets.len() ==> ip_bytes(ip)[1 + i] == ip.octets[i],
        ip_bytes(ip)[ip_bytes(ip).len() - 2] + 256 * ip_bytes(ip)[ip_bytes(ip).len() - 1]
            == ip.port,
{
}

/// A relay is written as the length of its text in four bytes, lowest
/// first, and the text.
pub proof fn law_relays_are_laid_out(text: Seq<char>, i: int)
    requires
        encode_utf8(text).len() < 0x1_0000_0000,
    ensures
        relay_bytes(text).len() == 4 + encode_utf8(text).len(),
        relay_bytes(text)[0] + 256 * relay_bytes(text)[1] + 65536 * relay_bytes(text)[2] + 16777216
            * relay_bytes(text)[3] == encode_utf8(text).len(),
        0 <= i < encode_utf8(text).len() ==> relay_bytes(text)[4 + i] == encode_utf8(text)[i],
{
}

/// Several sockets, or several relays, are written one after the other.
pub proof fn law_parts_follow_each_other(
    ips: Seq<IpModel>,
    ip: IpModel,
    relays: Seq<Seq<char>>,
    relay: Seq<char>,
)
    ensures
        ips_bytes(ips.push(ip)) == ips_bytes(ips) + ip_bytes(ip),
        relays_bytes(relays.push(relay)) == relays_bytes(relays) + relay_bytes(relay),
        ips_bytes(Seq::<IpModel>::empty()) == Seq::<u8>::empty(),
        relays_bytes(Seq::<Seq<char>>::empty()) == Seq::<u8>::empty(),
{
    assert(ips.push(ip).drop_last() =~= ips);
    assert(relays.push(relay).drop_last() =~= relays);
}

/// Route bytes are the version, the id, the number of sockets in two bytes,
/// the sockets in order, the number of relays in two bytes, and the relays
/// in order.
pub proof fn law_routes_are_laid_out(address: NodeAddrModel, i: int)
    requires
        routable(address),
    ensures
        ({
            let bytes = route_bytes(address);
            let ips = in_order::<IpSocket>(address.ips);
            let relays = in_order::<String>(address.relays);
            let packed = ips_bytes(ips);
            let named = relays_bytes(relays);
            let mid = 35 + packed.len() as int;
            &&& bytes.len() == mid + 2 + named.len()
            &&& bytes[0] == 1
            &&& 0 <= i < 32 ==> bytes[1 + i] == address.id[i]
            &&& bytes[33] + 256 * bytes[34] == ips.len()
            &&& 0 <= i < packed.len() ==> bytes[35 + i] == packed[i]
            &&& bytes[mid] + 256 * bytes[mid + 1] == relays.len()
            &&& 0 <= i < named.len() ==> bytes[mid + 2 + i] == named[i]
        }),
{
    let ips = in_order::<IpSocket>(address.ips);
    let relays = in_order::<String>(address.relays);
    let bytes = ordered_bytes(address.id, ips, relays);
    let mid = 35 + ips_bytes(ips).len() as int;
    assert(bytes[33] == u16_le(ips.len() as int)[0]);
    assert(bytes[34] == u16_le(ips.len() as int)[1]);
    assert(bytes[mid] == u16_le(relays.len() as int)[0]);
    assert(bytes[mid + 1] == u16_le(relays.len() as int)[1]);
}

proof fn lemma_read_ips(bytes: Seq<u8>, at: int, count: nat, ip: IpModel)
    requires
        0 <= at,
        ips_at(bytes, at, count) is Some,
    ensures
        (ips_at(bytes, at, count)->0).1 >= at + 7 * count,
        (ips_at(bytes, at, count)->0).0.contains(ip) ==> ip.valid() && ip.plain(),
    decreases count,
{
    if count > 0 {
        lemma_read_ips(bytes, at, (count - 1) as nat, ip);
    }
}

proof fn lemma_read_relays(bytes: Seq<u8>, at: int, count: nat, relay: Seq<char>)
    requires
        0 <= at,
        relays_at(bytes, at, count) is Some,
    ensures
        (relays_at(bytes, at, count)->0).1 >= at + 4 * count,
        (relays_at(bytes, at, count)->0).0.contains(relay) ==> exists|text: Seq<char>|
            #[trigger] relay_url(text) == Some(relay),
    decreases count,
{
    if count > 0 {
        lemma_read_relays(bytes, at, (count - 1) as nat, relay);
        let (_, next) = relays_at(bytes, at, (count - 1) as nat)->0;
        let end = next + 4 + u32_at(bytes, next);
        let text = vstd::utf8::decode_utf8(bytes.subrange(next + 4, end));
        assert(relay_url(text) == Some((relay_at(bytes, next)->0).0));
    }
}

/// Whatever decodes is of the one version and names a node, has whole
/// sockets without flow or scope, and names only relays that some text
/// parses to.
pub proof fn law_decoded_routes_are_sound(bytes: Seq<u8>, ip: IpModel, relay: Seq<char>)
    requires
        parse_route(bytes) is Some,
    ensures
        bytes.len() >= 37,
        bytes[0] == 1,
        is_node_id(bytes.subrange(1, 33)),
        (parse_route(bytes)->0).id == bytes.subrange(1, 33),
        (parse_route(bytes)->0).ips.contains(ip) ==> ip.valid() && ip.flowinfo == 0 && ip.scope_id
            == 0,
        (parse_route(bytes)->0).relays.contains(relay) ==> exists|text: Seq<char>|
            #[trigger] relay_url(text) == Some(relay),
{
    let count = u16_at(bytes, 33) as nat;
    lemma_read_ips(bytes, 35, count, ip);
    let (_, at) = ips_at(bytes, 35, count)->0;
    lemma_read_relays(bytes, at + 2, u16_at(bytes, at) as nat, relay);
}

/// Another version, a short header and an id that is no node's are refused.
pub proof fn law_foreign_headers_are_refused(bytes: Seq<u8>)
    ensures
        bytes.len() < 35 || bytes[0] != 1 || !is_node_id(bytes.subrange(1, 33)) ==> parse_route(
            bytes,
        ) is None,
{
}

/// A socket is read from a place exactly when its family is known and all
/// of it is there; a relay exactly when its length and text are there, the
/// text is UTF-8 and it parses as a relay URL.
pub proof fn law_parts_are_read_whole(bytes: Seq<u8>, at: int)
    requires
        0 <= at,
    ensures
        ip_at(bytes, at) is Some <==> (at + 7 <= bytes.len() && bytes[at] == 4) || (at + 19
            <= bytes.len() && bytes[at] == 6),
        ip_at(bytes, at) matches Some((ip, end)) ==> {
            &&& ip.v6 == (bytes[at] == 6)
            &&& end == at + 3 + ip.octets.len()
            &&& ip.octets == bytes.subrange(at + 1, at + 1 + ip.octets.len())
            &&& ip.port == bytes[end - 2] + 256 * bytes[end - 1]
            &&& ip.valid()
        },
        relay_at(bytes, at) matches Some((relay, end)) ==> {
            &&& end == at + 4 + u32_at(bytes, at)
            &&& end <= bytes.len()
            &&& valid_utf8(bytes.subrange(at + 4, end))
            &&& relay_url(vstd::utf8::decode_utf8(bytes.subrange(at + 4, end))) == Some(relay)
        },
        at + 4 <= bytes.len() && at + 4 + u32_at(bytes, at) <= bytes.len() && valid_utf8(
            bytes.subrange(at + 4, at + 4 + u32_at(bytes, at)),
        ) && relay_url(
            vstd::utf8::decode_utf8(bytes.subrange(at + 4, at + 4 + u32_at(bytes, at))),
        ) is Some ==> relay_at(bytes, at) is Some,
{
}

/// A route carries the whole of an address exactly when its id, its sockets
/// and its relays each fit: no flow, no scope, and no relay that would be
/// read as another.
pub proof fn law_routable_addresses_fit(address: NodeAddrModel, ip: IpModel, relay: Seq<char>)
    ensures
        routable(address) ==> address.id.len() == 32 && in_order::<IpSocket>(address.ips).len()
            <= 65535 && in_order::<String>(address.relays).len() <= 65535,
        routable(address) && address.ips.contains(ip) ==> ip.flowinfo == 0 && ip.scope_id == 0,
        routable(address) && address.relays.contains(relay) ==> relay_url(relay) == Some(relay)
            && encode_utf8(relay).len() <= 4294967295,
{
}

/// IPv4 addresses come before IPv6 addresses. Within a family the octets
/// decide, then the port, then the flow, then the scope.
pub proof fn law_sockets_are_ordered(a: IpModel, b: IpModel)
    ensures
        !a.v6 && b.v6 ==> IpSocket::before(a, b) && !IpSocket::before(b, a),
        a.v6 == b.v6 && a.octets == b.octets && a.port < b.port ==> IpSocket::before(a, b),
        a.v6 == b.v6 && a.octets == b.octets && a.port == b.port && a.flowinfo < b.flowinfo
            ==> IpSocket::before(a, b),
        a.v6 == b.v6 && a.octets == b.octets && a.port == b.port && a.flowinfo == b.flowinfo
            && a.scope_id < b.scope_id ==> IpSocket::before(a, b),
        a.v6 == b.v6 && a.octets.len() > 0 && b.octets.len() > 0 && a.octets[0] < b.octets[0]
            ==> IpSocket::before(a, b),
{
}

} // verus!
