//! What the packets hold, byte by byte.

use crate::bytes;
use crate::config::Tunnel;
use crate::dpdk;
use crate::dpdk::PacketModel;
use crate::error::Error;
use crate::etherip;
use crate::laws;
use crate::ndp;
use crate::protocol::{NEXT_ETHERIP, NEXT_FRAGMENT};
use crate::reassembly;
use crate::reassembly::{Arrival, Flow, Pending};
use vstd::prelude::*;

verus! {

/// Whether a packet has the outer headers of a tunnel: it goes from the WAN port to the next hop,
/// is IPv6 without traffic class and flow label, tells its own length, carries `next`, lives for
/// 64 hops, and goes from this end of the tunnel to the other.
pub open spec fn heads(packet: Seq<u8>, tunnel: Tunnel, mac: Seq<u8>, next: u8) -> bool {
    &&& packet.len() >= 54
    &&& forall|k: int| 0 <= k < 6 ==> #[trigger] packet[k] == tunnel.next_hop_mac[k]
    &&& forall|k: int| 0 <= k < 6 ==> packet[6 + k] == #[trigger] mac[k]
    &&& packet[12] == 0x86 && packet[13] == 0xdd
    &&& packet[14] == 0x60 && packet[15] == 0 && packet[16] == 0 && packet[17] == 0
    &&& packet[18] * 256 + packet[19] == packet.len() - 54
    &&& packet[20] == next
    &&& packet[21] == 64
    &&& forall|k: int| 0 <= k < 16 ==> packet[22 + k] == #[trigger] tunnel.local_ipv6.octets[k]
    &&& forall|k: int| 0 <= k < 16 ==> packet[38 + k] == #[trigger] tunnel.remote_ipv6.octets[k]
}

/// A packet into a tunnel has the outer headers of the tunnel, and the payload behind them.
pub proof fn tunnel_packet_bytes(tunnel: Tunnel, mac: Seq<u8>, next: u8, payload: Seq<u8>)
    requires
        mac.len() == 6,
        payload.len() <= 65_535,
    ensures
        heads(etherip::ipv6_spec(tunnel, mac, next, payload), tunnel, mac, next),
        etherip::ipv6_spec(tunnel, mac, next, payload).len() == 54 + payload.len(),
        forall|k: int|
            0 <= k < payload.len() ==> etherip::ipv6_spec(tunnel, mac, next, payload)[54 + k]
                == #[trigger] payload[k],
{
    let packet = etherip::ipv6_spec(tunnel, mac, next, payload);
    let length = bytes::be16_bytes(payload.len() as int);
    assert(tunnel.next_hop_mac@.len() == 6);
    assert(tunnel.local_ipv6@.len() == 16);
    assert(tunnel.remote_ipv6@.len() == 16);
    assert(packet.len() == 54 + payload.len());
    assert forall|k: int| 0 <= k < 6 implies #[trigger] packet[k] == tunnel.next_hop_mac[k] by {
        assert(packet[k] == tunnel.next_hop_mac@[k]);
    }
    assert(packet[12] == bytes::be16_bytes(0x86dd)[0]);
    assert(packet[13] == bytes::be16_bytes(0x86dd)[1]);
    assert(packet[18] == length[0] && packet[19] == length[1]);
    assert forall|k: int| 0 <= k < 16 implies packet[22 + k]
        == #[trigger] tunnel.local_ipv6.octets[k] by {
        assert(packet[22 + k] == tunnel.local_ipv6@[k]);
    }
    assert forall|k: int| 0 <= k < 16 implies packet[38 + k]
        == #[trigger] tunnel.remote_ipv6.octets[k] by {
        assert(packet[38 + k] == tunnel.remote_ipv6@[k]);
    }
}

/// What byte `k` of a frame behind its EtherIP header is.
pub open spec fn carried(frame: Seq<u8>, k: int) -> u8 {
    if k == 0 {
        0x30
    } else if k == 1 {
        0
    } else {
        frame[k - 2]
    }
}

/// Whether a packet is the fragment that starts at byte `start` of a frame behind its EtherIP
/// header: it has the outer headers of the tunnel and a fragment header that names EtherIP, the
/// place, whether more follows, and the identification.
pub open spec fn is_fragment_of(
    packet: Seq<u8>,
    tunnel: Tunnel,
    mac: Seq<u8>,
    frame: Seq<u8>,
    start: int,
    id: u32,
) -> bool {
    let end = start + packet.len() - 62;
    &&& heads(packet, tunnel, mac, 44)
    &&& packet.len() > 62
    &&& end <= frame.len() + 2
    &&& packet[54] == 97 && packet[55] == 0
    &&& packet[56] * 256 + packet[57] == start + (if end < frame.len() + 2 {
        1int
    } else {
        0
    })
    &&& ((packet[58] * 256 + packet[59]) * 256 + packet[60]) * 256 + packet[61] == id
    &&& forall|k: int|
        start <= k < end ==> packet[62 + k - start] == #[trigger] carried(frame, k)
}

/// A frame in fragments: each is a fragment of the frame under the identification, they follow
/// one another from the start of the frame to its end, and all but the last hold as many bytes as
/// the MTU allows in units of eight.
pub proof fn fragments_bytes(frame: Seq<u8>, tunnel: Tunnel, mtu: int, mac: Seq<u8>, id: u32)
    requires
        mac.len() == 6,
        mtu <= 65_575 || frame.len() <= 65_525,
    ensures
        etherip::fragments_spec(frame, tunnel, mtu, mac, id) matches Ok(fragments) ==> {
            let full = (fragments[0].len() - 62) as int;
            &&& fragments.len() > 0
            &&& fragments.len() > 1 ==> full % 8 == 0 && 48 + full <= mtu < 48 + full + 8
            &&& forall|i: int|
                0 <= i < fragments.len() ==> is_fragment_of(
                    #[trigger] fragments[i],
                    tunnel,
                    mac,
                    frame,
                    i * full,
                    id,
                )
            &&& forall|i: int|
                0 <= i < fragments.len() - 1 ==> (#[trigger] fragments[i]).len() == 62 + full
            &&& (fragments.len() - 1) * full + fragments.last().len() - 62 == frame.len() + 2
            &&& forall|i: int|
                0 <= i < fragments.len() ==> (#[trigger] fragments[i]).len() <= 14 + mtu
        },
{
    if let Ok(fragments) = etherip::fragments_spec(frame, tunnel, mtu, mac, id) {
        let payload = etherip::etherip_frame(frame);
        let chunk = etherip::chunk_size(mtu);
        let length = payload.len() as int;
        let count = fragments.len() as int;
        assert(length == frame.len() + 2);
        laws::fragments_fit_the_mtu(frame, tunnel, mtu, mac, id);
        assert forall|i: int| 0 <= i < count implies {
            &&& is_fragment_of(#[trigger] fragments[i], tunnel, mac, frame, i * chunk, id)
            &&& fragments[i].len() - 62 == etherip::chunk_end(length, chunk, i) - i * chunk
        } by {
            lemma_fragment_bytes(frame, tunnel, mac, chunk, id, i);
        }
        etherip::lemma_chunk_range(length, chunk, count - 1);
        assert((count - 1 + 1) * chunk >= length);
        if count == 1 {
            assert(0 * chunk == 0);
            let full = (fragments[0].len() - 62) as int;
            assert(0 * full == 0);
            assert(fragments[0] == fragments.last());
        }
    }
}

proof fn lemma_fragment_bytes(
    frame: Seq<u8>,
    tunnel: Tunnel,
    mac: Seq<u8>,
    chunk: int,
    id: u32,
    i: int,
)
    requires
        mac.len() == 6,
        chunk > 0,
        chunk % 8 == 0,
        chunk <= 65_527 || frame.len() <= 65_525,
        frame.len() + 2 <= 65_535,
        0 <= i < etherip::chunk_count((frame.len() + 2) as int, chunk),
    ensures
        ({
            let payload = etherip::etherip_frame(frame);
            let packet = etherip::ipv6_spec(
                tunnel,
                mac,
                NEXT_FRAGMENT,
                etherip::fragment_body(payload, chunk, id, i),
            );
            &&& is_fragment_of(packet, tunnel, mac, frame, i * chunk, id)
            &&& packet.len() - 62 == etherip::chunk_end(payload.len() as int, chunk, i) - i * chunk
        }),
{
    let payload = etherip::etherip_frame(frame);
    let length = payload.len() as int;
    assert(length == frame.len() + 2);
    let body = etherip::fragment_body(payload, chunk, id, i);
    let start = i * chunk;
    let end = etherip::chunk_end(length, chunk, i);
    let more: int = if end < length {
        1
    } else {
        0
    };
    etherip::lemma_chunk_range(length, chunk, i);
    let offset = bytes::be16_bytes(start + more);
    let number = bytes::be32_bytes(id as int);
    assert(body.len() == 8 + end - start);
    assert(start < length);
    assert(start % 8 == 0) by {
        let eighth = chunk / 8;
        assert(i * chunk == 8 * (i * eighth)) by (nonlinear_arith)
            requires
                chunk == 8 * eighth,
        ;
    }
    tunnel_packet_bytes(tunnel, mac, NEXT_FRAGMENT, body);
    let packet = etherip::ipv6_spec(tunnel, mac, NEXT_FRAGMENT, body);
    assert(body[0] == 97 && body[1] == 0);
    assert(body[2] == offset[0] && body[3] == offset[1]);
    assert(body[4] == number[0] && body[5] == number[1] && body[6] == number[2] && body[7]
        == number[3]);
    bytes::be32_round_trip(id as int);
    assert(packet[54] == body[0] && packet[55] == body[1]);
    assert(packet[56] == body[2] && packet[57] == body[3]);
    assert(packet[58] == body[4] && packet[59] == body[5]);
    assert(packet[60] == body[6] && packet[61] == body[7]);
    assert forall|k: int| start <= k < end implies packet[62 + k - start] == #[trigger] carried(
        frame,
        k,
    ) by {
        assert(packet[54 + (8 + k - start)] == body[8 + k - start]);
        assert(body[8 + k - start] == payload[k]);
    }
}

/// Every packet that a frame becomes on its way into a tunnel has the outer headers of the tunnel.
/// A frame that fits goes behind its EtherIP header in one packet of protocol 97, and any other in
/// fragments.
pub proof fn sent_packets_bytes(
    packet: PacketModel,
    dpdk: dpdk::Environment,
    tunnel: Tunnel,
    mtu: int,
    mac: Seq<u8>,
    id: u32,
)
    requires
        mac.len() == 6,
        mtu <= 65_575,
        packet.wf(),
        etherip::encapsulated(packet, dpdk, tunnel, mtu, mac, id) is Ok,
    ensures
        ({
            let frame = packet.data();
            let sent = etherip::encapsulated(packet, dpdk, tunnel, mtu, mac, id)->Ok_0;
            &&& sent.len() > 0
            &&& frame.len() + 42 <= mtu ==> {
                &&& sent.len() == 1
                &&& heads(sent[0].data(), tunnel, mac, 97)
                &&& sent[0].data().len() == 56 + frame.len()
                &&& sent[0].first.buffer.len() == packet.first.buffer.len()
                &&& sent[0].first.offset == packet.first.offset - 56
                &&& forall|k: int|
                    0 <= k < frame.len() + 2 ==> sent[0].data()[54 + k] == #[trigger] carried(
                        frame,
                        k,
                    )
            }
            &&& frame.len() + 42 > mtu ==> forall|i: int|
                0 <= i < sent.len() ==> is_fragment_of(
                    (#[trigger] sent[i]).data(),
                    tunnel,
                    mac,
                    frame,
                    i * (sent[0].data().len() - 62),
                    id,
                )
            &&& frame.len() + 42 > mtu ==> (sent.len() - 1) * (sent[0].data().len() - 62)
                + sent.last().data().len() - 62 == frame.len() + 2
        }),
{
    let frame = packet.data();
    let sent = etherip::encapsulated(packet, dpdk, tunnel, mtu, mac, id)->Ok_0;
    if frame.len() + 42 <= mtu {
        laws::lemma_whole_packet(packet, dpdk, tunnel, mtu, mac, id);
        let payload = etherip::etherip_frame(frame);
        tunnel_packet_bytes(tunnel, mac, NEXT_ETHERIP, payload);
        assert forall|k: int| 0 <= k < frame.len() + 2 implies sent[0].data()[54 + k]
            == #[trigger] carried(frame, k) by {
            assert(payload[k] == carried(frame, k));
        }
    } else {
        laws::lemma_sent_fragments(packet, dpdk, tunnel, mtu, mac, id);
        fragments_bytes(frame, tunnel, mtu, mac, id);
        let fragments = etherip::fragments_spec(frame, tunnel, mtu, mac, id)->Ok_0;
        assert forall|i: int| 0 <= i < sent.len() implies is_fragment_of(
            (#[trigger] sent[i]).data(),
            tunnel,
            mac,
            frame,
            i * (sent[0].data().len() - 62),
            id,
        ) by {
            assert(sent[i].data() == fragments[i]);
            assert(sent[0].data() == fragments[0]);
        }
    }
}

/// When a frame cannot be cut into fragments: it is too long for an IPv6 packet, or the MTU leaves
/// no room for the headers, or none for eight bytes behind them.
pub proof fn fragments_refused(frame: Seq<u8>, tunnel: Tunnel, mtu: int, mac: Seq<u8>, id: u32)
    ensures
        ({
            let result = etherip::fragments_spec(frame, tunnel, mtu, mac, id);
            &&& result is Ok <==> frame.len() <= 65_533 && mtu >= 56
            &&& result == Err::<Seq<Seq<u8>>, Error>(Error::PayloadLimit) <==> frame.len() > 65_533
            &&& result == Err::<Seq<Seq<u8>>, Error>(Error::MtuTooSmall) <==> frame.len() <= 65_533
                && mtu < 48
            &&& result == Err::<Seq<Seq<u8>>, Error>(Error::Unfragmentable) <==> frame.len()
                <= 65_533 && 48 <= mtu < 56
        }),
{
    let payload = etherip::etherip_frame(frame);
    assert(payload.len() == frame.len() + 2);
}

/// Whether a packet is an ICMPv6 message of at least `least` bytes behind an Ethernet and an IPv6
/// header, and is as long as it says.
pub open spec fn is_icmp(packet: Seq<u8>, least: int) -> bool {
    &&& packet.len() >= 54
    &&& packet[12] == 0x86 && packet[13] == 0xdd
    &&& 0x60 <= packet[14] <= 0x6f
    &&& packet[18] * 256 + packet[19] >= least
    &&& packet.len() >= 54 + packet[18] * 256 + packet[19]
    &&& packet[20] == 58
}

/// Whether the checksum over the addresses and the message of a packet comes out as zero.
pub open spec fn sums_up(packet: Seq<u8>) -> bool {
    ndp::checksum_spec(
        packet.subrange(22, 38),
        packet.subrange(38, 54),
        packet.subrange(54, 54 + packet[18] * 256 + packet[19]),
    ) == 0
}

/// Whether an address is the one on which all hosts with the last three bytes of `local` are
/// solicited.
pub open spec fn solicits_node(address: Seq<u8>, local: Seq<u8>) -> bool {
    &&& address.len() == 16
    &&& address[0] == 0xff && address[1] == 2
    &&& forall|k: int| 2 <= k < 11 ==> #[trigger] address[k] == 0
    &&& address[11] == 1 && address[12] == 0xff
    &&& address[13] == local[13] && address[14] == local[14] && address[15] == local[15]
}

/// What a Neighbor Solicitation for `local` is: an ICMPv6 message of at least 24 bytes with hop
/// limit 255 to the address or to its solicited-node group, of type 135 and code 0, for the
/// address, with a valid checksum.
pub proof fn solicitation_bytes(packet: Seq<u8>, local: Seq<u8>)
    requires
        local.len() == 16,
    ensures
        ndp::solicits(packet, local) <==> {
            &&& is_icmp(packet, 24)
            &&& packet[21] == 255
            &&& packet.subrange(38, 54) == local || solicits_node(packet.subrange(38, 54), local)
            &&& packet[54] == 135 && packet[55] == 0
            &&& packet.subrange(62, 78) == local
            &&& sums_up(packet)
        },
{
    if is_icmp(packet, 24) {
        let message = etherip::outer_payload(packet);
        let destination = packet.subrange(38, 54);
        assert(message == packet.subrange(54, 54 + packet[18] * 256 + packet[19]));
        assert(message[0] == packet[54] && message[1] == packet[55]);
        assert(message.subrange(8, 24) =~= packet.subrange(62, 78));
        assert(solicits_node(ndp::solicited_node(local), local));
        if solicits_node(destination, local) {
            assert(destination =~= ndp::solicited_node(local));
        }
    }
}

/// What the answer to a Neighbor Solicitation is: from the WAN port and the local address to the
/// sender, or to all nodes where the sender has no address, with hop limit 255; an advertisement
/// of type 136 that overrides, is marked as solicited where the sender has an address, is for the
/// local address and gives the MAC of the WAN port, with a valid checksum.
pub proof fn advertisement_bytes(packet: Seq<u8>, local: Seq<u8>, mac: Seq<u8>)
    requires
        ndp::solicits(packet, local),
        local.len() == 16,
        mac.len() == 6,
    ensures
        ({
            let reply = ndp::advertisement(packet, local, mac);
            let nameless = forall|k: int| 22 <= k < 38 ==> #[trigger] packet[k] == 0;
            &&& reply.len() == 86
            &&& !nameless ==> {
                &&& reply.subrange(0, 6) == packet.subrange(6, 12)
                &&& reply.subrange(38, 54) == packet.subrange(22, 38)
                &&& reply[58] == 0x60
            }
            &&& nameless ==> {
                &&& reply[0] == 0x33 && reply[1] == 0x33 && reply[2] == 0 && reply[3] == 0
                &&& reply[4] == 0 && reply[5] == 1
                &&& reply[38] == 0xff && reply[39] == 2 && reply[53] == 1
                &&& forall|k: int| 40 <= k < 53 ==> #[trigger] reply[k] == 0
                &&& reply[58] == 0x20
            }
            &&& reply.subrange(6, 12) == mac
            &&& is_icmp(reply, 32)
            &&& reply[14] == 0x60 && reply[15] == 0 && reply[16] == 0 && reply[17] == 0
            &&& reply[18] == 0 && reply[19] == 32
            &&& reply[21] == 255
            &&& reply.subrange(22, 38) == local
            &&& reply[54] == 136 && reply[55] == 0
            &&& reply[59] == 0 && reply[60] == 0 && reply[61] == 0
            &&& reply.subrange(62, 78) == local
            &&& reply[78] == 2 && reply[79] == 1
            &&& reply.subrange(80, 86) == mac
            &&& sums_up(reply)
        }),
{
    let reply = ndp::advertisement(packet, local, mac);
    let source = packet.subrange(22, 38);
    let nameless = source == ndp::unspecified();
    assert(nameless == (forall|k: int| 22 <= k < 38 ==> #[trigger] packet[k] == 0)) by {
        if forall|k: int| 22 <= k < 38 ==> #[trigger] packet[k] == 0 {
            assert(source =~= ndp::unspecified());
        }
        if nameless {
            assert forall|k: int| 22 <= k < 38 implies #[trigger] packet[k] == 0 by {
                assert(packet[k] == source[k - 22]);
            }
        }
    }
    ndp::advertisement_is_intact(packet, local, mac);
    let to_mac = if nameless {
        seq![0x33u8, 0x33u8, 0u8, 0u8, 0u8, 1u8]
    } else {
        packet.subrange(6, 12)
    };
    let to = if nameless {
        ndp::all_nodes()
    } else {
        source
    };
    assert(to_mac.len() == 6 && to.len() == 16);
    assert(reply.len() == 86);
    assert(reply.subrange(0, 6) =~= to_mac);
    assert(reply.subrange(6, 12) =~= mac);
    assert(reply[12] == bytes::be16_bytes(0x86dd)[0] && reply[13] == bytes::be16_bytes(0x86dd)[1]);
    assert(reply[18] == bytes::be16_bytes(32)[0] && reply[19] == bytes::be16_bytes(32)[1]);
    assert(reply.subrange(22, 38) =~= local);
    assert(reply.subrange(38, 54) =~= to);
    assert(reply.subrange(62, 78) =~= local);
    assert(reply.subrange(80, 86) =~= mac);
    if nameless {
        assert forall|k: int| 0 <= k < 6 implies reply[k] == #[trigger] to_mac[k] by {
            assert(reply.subrange(0, 6)[k] == reply[k]);
        }
        assert forall|k: int| 38 <= k < 54 implies #[trigger] reply[k] == to[k - 38] by {
            assert(reply.subrange(38, 54)[k - 38] == reply[k]);
        }
    }
    assert(etherip::outer_payload(reply) == reply.subrange(
        54,
        54 + reply[18] * 256 + reply[19],
    ));
}

/// What a Packet Too Big message is that the bridge heeds: an ICMPv6 message of at least 48 bytes
/// to the local address, of type 2, that quotes an IPv6 packet of EtherIP or a fragment from the
/// local address, with a valid checksum. It tells an MTU in 32 bits, and the destination of the
/// packet that it quotes.
pub proof fn too_big_bytes(packet: Seq<u8>, local: Seq<u8>)
    ensures
        ndp::too_big(packet, local) <==> {
            &&& is_icmp(packet, 48)
            &&& packet.subrange(38, 54) == local
            &&& packet[54] == 2
            &&& 0x60 <= packet[62] <= 0x6f
            &&& packet[68] == 97 || packet[68] == 44
            &&& packet.subrange(70, 86) == local
            &&& sums_up(packet)
        },
        ndp::too_big(packet, local) ==> ndp::told_mtu(packet) == ((packet[58] * 256 + packet[59])
            * 256 + packet[60]) * 256 + packet[61],
        ndp::too_big(packet, local) ==> ndp::told_destination(packet) == packet.subrange(86, 102),
{
    if is_icmp(packet, 48) {
        let message = etherip::outer_payload(packet);
        assert(message == packet.subrange(54, 54 + packet[18] * 256 + packet[19]));
        assert(message[0] == packet[54] && message[8] == packet[62] && message[14] == packet[68]);
        assert(message.subrange(16, 32) =~= packet.subrange(70, 86));
        assert(message.subrange(32, 48) =~= packet.subrange(86, 102));
        assert(message.subrange(4, 8) =~= packet.subrange(58, 62));
    }
}

/// A frame is in a VLAN if it has the EtherType 0x8100 behind its addresses and a whole tag, and
/// the low twelve bits of the tag name the VLAN.
pub proof fn vlan_bytes(frame: Seq<u8>)
    ensures
        etherip::vlan_spec(frame) is Some <==> frame.len() >= 16 && frame[12] == 0x81 && frame[13]
            == 0,
        etherip::vlan_spec(frame) matches Some(vlan) ==> vlan == frame[14] % 16 * 256 + frame[15],
{
}

/// The tunnel for a frame from the LAN is the only one there is, if that has no VLAN, or else the
/// first one for the VLAN in the frame's tag; there is none if the frame has no tag or no tunnel
/// is for its VLAN.
pub proof fn lan_tunnel_choice(frame: Seq<u8>, tunnels: Seq<Tunnel>)
    ensures
        ({
            let found = etherip::lan_tunnel(frame, tunnels);
            let tag = (frame[14] % 16 * 256 + frame[15]) as u16;
            let with_tag = frame.len() >= 16 && frame[12] == 0x81 && frame[13] == 0;
            if tunnels.len() == 1 && tunnels[0].vlan is None {
                found == Some(0int)
            } else if with_tag {
                &&& found matches Some(i) ==> {
                    &&& 0 <= i < tunnels.len()
                    &&& tunnels[i].vlan == Some(tag)
                    &&& forall|k: int| 0 <= k < i ==> (#[trigger] tunnels[k]).vlan != Some(tag)
                }
                &&& found is None ==> forall|k: int|
                    0 <= k < tunnels.len() ==> (#[trigger] tunnels[k]).vlan != Some(tag)
            } else {
                found is None
            }
        }),
{
    vlan_bytes(frame);
    if let Some(vlan) = etherip::vlan_spec(frame) {
        let test = |tunnel: Tunnel| tunnel.vlan == Some(vlan);
        let flags = tunnels.map_values(test);
        flags.index_of_first_ensures(true);
        assert forall|k: int|
            0 <= k < tunnels.len() && (#[trigger] tunnels[k]).vlan == Some(vlan) implies flags[k] by {
            assert(test(tunnels[k]));
        }
    }
}

/// The tunnel for an address is the first one whose far end has it; there is none if no far end
/// has it.
pub proof fn remote_tunnel_choice(address: Seq<u8>, tunnels: Seq<Tunnel>)
    ensures
        etherip::remote_tunnel(address, tunnels) matches Some(i) ==> {
            &&& 0 <= i < tunnels.len()
            &&& tunnels[i].remote_ipv6.octets@ == address
            &&& forall|k: int|
                0 <= k < i ==> (#[trigger] tunnels[k]).remote_ipv6.octets@ != address
        },
        etherip::remote_tunnel(address, tunnels) is None ==> forall|k: int|
            0 <= k < tunnels.len() ==> (#[trigger] tunnels[k]).remote_ipv6.octets@ != address,
{
    let test = etherip::leads_to(address);
    let flags = tunnels.map_values(test);
    flags.index_of_first_ensures(true);
    assert forall|k: int|
        0 <= k < tunnels.len() && (#[trigger] tunnels[k]).remote_ipv6.octets@
            == address implies flags[k] by {
        assert(test(tunnels[k]));
    }
}

/// The tunnel for a packet from the WAN is the one for the address in its bytes 22 to 38.
pub proof fn wan_tunnel_choice(packet: Seq<u8>, tunnels: Seq<Tunnel>)
    ensures
        packet.len() < 38 ==> etherip::wan_tunnel(packet, tunnels) is None,
        packet.len() >= 38 ==> etherip::wan_tunnel(packet, tunnels) == etherip::remote_tunnel(
            packet.subrange(22, 38),
            tunnels,
        ),
{
}

/// Whether a packet is IPv6 behind an Ethernet header, and no shorter than it says.
pub open spec fn is_ipv6(packet: Seq<u8>) -> bool {
    &&& packet.len() >= 54
    &&& packet[12] == 0x86 && packet[13] == 0xdd
    &&& 0x60 <= packet[14] <= 0x6f
    &&& packet.len() >= 54 + packet[18] * 256 + packet[19]
}

/// Whether a packet comes from the far end of a tunnel to this one, and carries EtherIP or a
/// fragment.
pub open spec fn comes_through(packet: Seq<u8>, tunnel: Tunnel) -> bool {
    &&& is_ipv6(packet)
    &&& packet[20] == 97 || packet[20] == 44
    &&& packet.subrange(22, 38) == tunnel.remote_ipv6.octets@
    &&& packet.subrange(38, 54) == tunnel.local_ipv6.octets@
}

/// A packet is one of the tunnel's exactly if it comes through it, and of what is wrong with any
/// other the first counts.
pub proof fn outer_bytes(packet: Seq<u8>, tunnel: Tunnel)
    ensures
        etherip::outer_spec(packet, tunnel) is Ok <==> comes_through(packet, tunnel),
        etherip::outer_spec(packet, tunnel) matches Err(error) ==> match error {
            etherip::OuterError::Short => packet.len() < 54,
            etherip::OuterError::EtherType => packet.len() >= 54 && !(packet[12] == 0x86
                && packet[13] == 0xdd),
            etherip::OuterError::Version => {
                &&& packet.len() >= 54 && packet[12] == 0x86 && packet[13] == 0xdd
                &&& packet[14] < 0x60 || packet[14] > 0x6f
            },
            etherip::OuterError::Length => {
                &&& 54 <= packet.len() < 54 + packet[18] * 256 + packet[19]
                &&& packet[12] == 0x86 && packet[13] == 0xdd && 0x60 <= packet[14] <= 0x6f
            },
            etherip::OuterError::Protocol => is_ipv6(packet) && packet[20] != 97 && packet[20]
                != 44,
            etherip::OuterError::Source => {
                &&& is_ipv6(packet) && (packet[20] == 97 || packet[20] == 44)
                &&& packet.subrange(22, 38) != tunnel.remote_ipv6.octets@
            },
            etherip::OuterError::Destination => {
                &&& is_ipv6(packet) && (packet[20] == 97 || packet[20] == 44)
                &&& packet.subrange(22, 38) == tunnel.remote_ipv6.octets@
                &&& packet.subrange(38, 54) != tunnel.local_ipv6.octets@
            },
        },
{
}

/// A frame behind an EtherIP header is what follows the bytes 0x30 and 0.
pub proof fn etherip_bytes(payload: Seq<u8>)
    ensures
        etherip::etherip_spec(payload) is Some <==> payload.len() >= 2 && payload[0] == 0x30
            && payload[1] == 0,
        etherip::etherip_spec(payload) matches Some(frame) ==> frame == payload.subrange(
            2,
            payload.len() as int,
        ),
{
}

/// What becomes of a packet that is no fragment: one of protocol 97 that comes through the tunnel
/// and has an EtherIP header gives the frame behind it, without what the link put behind the
/// payload; any other gives nothing. None of them touches the packets that wait.
pub proof fn whole_packet_bytes(
    packet: PacketModel,
    dpdk: dpdk::Environment,
    tunnel: Tunnel,
    packets: Map<Flow, Pending>,
    now: int,
)
    requires
        packet.wf(),
        !(packet.single() && comes_through(packet.data(), tunnel) && packet.data()[20] == 44),
    ensures
        ({
            let data = packet.data();
            let length = data[18] * 256 + data[19];
            let (after, result) = etherip::decapsulated(packet, dpdk, tunnel, packets, now);
            &&& after == packets
            &&& if packet.single() && comes_through(data, tunnel) && length >= 2 && data[54] == 0x30
                && data[55] == 0 {
                &&& result matches Ok(Some(frame)) && frame.single() && frame.data()
                    == data.subrange(56, 54 + length) && frame.first.buffer == packet.first.buffer
                    && frame.first.offset == packet.first.offset + 56
            } else {
                result == Ok::<Option<PacketModel>, Error>(None)
            }
        }),
{
    let data = packet.data();
    let payload = etherip::outer_payload(data);
    outer_bytes(data, tunnel);
    if packet.single() && comes_through(data, tunnel) {
        let length = data[18] * 256 + data[19];
        assert(payload.len() == length);
        etherip_bytes(payload);
        if length >= 2 {
            assert(payload[0] == data[54] && payload[1] == data[55]);
            assert(etherip::unwrapped(packet).data() =~= data.subrange(56, 54 + length));
        }
    }
}

/// Whether the payload of a packet starts with the header of a fragment of EtherIP.
pub open spec fn holds_fragment(data: Seq<u8>) -> bool {
    &&& data[18] * 256 + data[19] >= 8
    &&& data[54] == 97 && data[55] == 0
    &&& data[57] % 8 < 2
}

/// The fragment in a packet that holds one: it belongs to the packet that its addresses and the
/// number in bytes 58 to 62 name, starts at the place in bytes 56 and 57 without the low three
/// bits, is the last if the lowest bit is 0, and is what follows its header.
pub open spec fn fragment_held(data: Seq<u8>, now: int) -> Arrival {
    Arrival {
        key: (
            data.subrange(22, 38),
            data.subrange(38, 54),
            (((data[58] * 256 + data[59]) * 256 + data[60]) * 256 + data[61]) as u32,
        ),
        offset: data[56] * 256 + data[57] - data[57] % 8,
        more: data[57] % 2 == 1,
        data: data.subrange(62, 54 + data[18] * 256 + data[19]),
        now,
    }
}

/// What becomes of a fragment that comes through a tunnel: it joins those that wait, and a payload
/// that it completes gives the frame behind the EtherIP header, if it has one, in a fresh buffer.
pub proof fn fragment_packet_bytes(
    packet: PacketModel,
    dpdk: dpdk::Environment,
    tunnel: Tunnel,
    packets: Map<Flow, Pending>,
    now: int,
)
    requires
        packet.wf(),
        packet.single(),
        comes_through(packet.data(), tunnel),
        packet.data()[20] == 44,
    ensures
        ({
            let data = packet.data();
            let (after, result) = etherip::decapsulated(packet, dpdk, tunnel, packets, now);
            let held = fragment_held(data, now);
            let (joined, whole) = reassembly::arrival(
                packets,
                held.key,
                held.offset,
                held.more,
                held.data,
                now,
            );
            &&& !holds_fragment(data) ==> after == packets && result == Ok::<
                Option<PacketModel>,
                Error,
            >(None)
            &&& holds_fragment(data) ==> {
                &&& after == joined
                &&& whole is None ==> result == Ok::<Option<PacketModel>, Error>(None)
                &&& whole matches Some(payload) ==> if payload.len() >= 2 && payload[0] == 0x30
                    && payload[1] == 0 {
                    match result {
                        Ok(Some(frame)) => dpdk::allocated(
                            dpdk,
                            payload.subrange(2, payload.len() as int),
                        ) == Ok::<PacketModel, Error>(frame),
                        Ok(None) => false,
                        Err(error) => dpdk::allocated(
                            dpdk,
                            payload.subrange(2, payload.len() as int),
                        ) == Err::<PacketModel, Error>(error),
                    }
                } else {
                    result == Ok::<Option<PacketModel>, Error>(None)
                }
            }
        }),
{
    let data = packet.data();
    outer_bytes(data, tunnel);
    lemma_fragment_held(packet, tunnel, now);
    let held = fragment_held(data, now);
    let whole = reassembly::arrival(
        packets,
        held.key,
        held.offset,
        held.more,
        held.data,
        now,
    ).1;
    if let Some(payload) = whole {
        etherip_bytes(payload);
    }
}

/// The fragment that a packet adds to those that wait is the one that it holds, if it comes through
/// the tunnel as a fragment.
pub proof fn lemma_fragment_held(packet: PacketModel, tunnel: Tunnel, now: int)
    ensures
        ({
            let data = packet.data();
            etherip::fragment_in(packet, tunnel, now) == if packet.single() && comes_through(
                data,
                tunnel,
            ) && data[20] == 44 && holds_fragment(data) {
                Some(fragment_held(data, now))
            } else {
                None
            }
        }),
{
    let data = packet.data();
    outer_bytes(data, tunnel);
    if comes_through(data, tunnel) {
        let length = data[18] * 256 + data[19];
        let payload = etherip::outer_payload(data);
        assert(payload.len() == length);
        if length >= 8 {
            assert(payload[0] == data[54] && payload[1] == data[55]);
            assert(payload[2] == data[56] && payload[3] == data[57]);
            assert(payload.subrange(4, 8) =~= data.subrange(58, 62));
            assert(payload.skip(8) =~= data.subrange(62, 54 + length));
            let high = data[56] as int;
            let low = data[57] as int;
            let field = high * 256 + low;
            assert(field / 2 % 4 == low % 8 / 2);
            assert(field / 8 * 8 == field - low % 8);
            assert(field % 2 == low % 2);
        }
    }
}

/// A frame without its tag is the frame without its bytes 12 to 16.
pub proof fn untagged_bytes(frame: Seq<u8>)
    requires
        frame.len() >= 16,
    ensures
        etherip::untagged(frame).len() == frame.len() - 4,
        forall|k: int| 0 <= k < 12 ==> etherip::untagged(frame)[k] == #[trigger] frame[k],
        forall|k: int| 16 <= k < frame.len() ==> etherip::untagged(frame)[k - 4]
            == #[trigger] frame[k],
{
}

/// A frame with a tag has 0x8100 and the VLAN between its addresses and the rest.
pub proof fn tagged_bytes(frame: Seq<u8>, vlan: u16)
    requires
        frame.len() >= 12,
    ensures
        ({
            let tagged = etherip::tagged(frame, vlan);
            &&& tagged.len() == frame.len() + 4
            &&& tagged[12] == 0x81 && tagged[13] == 0
            &&& tagged[14] * 256 + tagged[15] == vlan
            &&& forall|k: int| 0 <= k < 12 ==> tagged[k] == #[trigger] frame[k]
            &&& forall|k: int| 12 <= k < frame.len() ==> tagged[k + 4] == #[trigger] frame[k]
        }),
{
    let tagged = etherip::tagged(frame, vlan);
    assert(tagged[12] == bytes::be16_bytes(0x8100)[0] && tagged[13] == bytes::be16_bytes(0x8100)[1]);
    assert(tagged[14] == bytes::be16_bytes(vlan as int)[0]);
    assert(tagged[15] == bytes::be16_bytes(vlan as int)[1]);
}

/// A tag is taken from every frame in one segment that has one, and from no other; the packet then
/// holds the frame without it.
pub proof fn stripped_bytes(packet: PacketModel)
    requires
        packet.wf(),
    ensures
        ({
            let frame = packet.data();
            match etherip::stripped(packet) {
                Ok(bare) => {
                    &&& packet.single() && frame.len() >= 16 && frame[12] == 0x81 && frame[13] == 0
                    &&& bare.wf() && bare.single()
                    &&& bare.data() == frame.subrange(0, 12) + frame.subrange(
                        16,
                        frame.len() as int,
                    )
                    &&& bare.first.offset == packet.first.offset
                    &&& bare.first.buffer.len() == packet.first.buffer.len()
                },
                Err(Error::MultiSegmentVlanPacket) => !packet.single(),
                Err(Error::NoVlanTag) => packet.single() && !(frame.len() >= 16 && frame[12] == 0x81
                    && frame[13] == 0),
                Err(_) => false,
            }
        }),
{
    let frame = packet.data();
    if let Ok(bare) = etherip::stripped(packet) {
        assert(bare.data() =~= frame.subrange(0, 12) + frame.subrange(16, frame.len() as int));
    }
}

/// A tag is put into every frame in one segment that has room for it behind it; the packet then
/// holds the frame with the tag.
pub proof fn vlan_added_bytes(packet: PacketModel, vlan: u16)
    requires
        packet.wf(),
        packet.single(),
        packet.data().len() >= 12,
    ensures
        match etherip::vlan_added(packet, vlan) {
            Ok(with_tag) => {
                &&& packet.first.buffer.len() - packet.first.offset - packet.first.length >= 4
                &&& with_tag.wf() && with_tag.single()
                &&& with_tag.data().len() == packet.data().len() + 4
                &&& with_tag.data().subrange(0, 12) == packet.data().subrange(0, 12)
                &&& with_tag.data()[12] == 0x81 && with_tag.data()[13] == 0
                &&& with_tag.data()[14] * 256 + with_tag.data()[15] == vlan
                &&& with_tag.data().subrange(16, with_tag.data().len() as int)
                    == packet.data().subrange(12, packet.data().len() as int)
                &&& with_tag.first.offset == packet.first.offset
                &&& with_tag.first.buffer.len() == packet.first.buffer.len()
            },
            Err(Error::Tailroom) => packet.first.buffer.len() - packet.first.offset
                - packet.first.length < 4,
            Err(_) => false,
        },
{
    if let Ok(with_tag) = etherip::vlan_added(packet, vlan) {
        tagged_bytes(packet.data(), vlan);
        let data = with_tag.data();
        assert(data =~= etherip::tagged(packet.data(), vlan));
        assert(data.subrange(0, 12) =~= packet.data().subrange(0, 12));
        assert(data.subrange(16, data.len() as int) =~= packet.data().subrange(
            12,
            packet.data().len() as int,
        ));
    }
}

} // verus!
