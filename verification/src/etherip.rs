//! EtherIP/IPv6 encapsulation, decapsulation, fragmentation, and LAN VLAN handling.

use crate::address::Ipv6Addr;
use crate::bytes;
use crate::bytes::{
    array16_at, be16, be32_at, copy_bytes, push_be16, push_be32, push_bytes, same_bytes,
};
use crate::config::Tunnel;
use crate::dpdk;
use crate::dpdk::{Environment, Packet, PacketModel, SegmentModel};
use crate::error::Error;
use crate::protocol::{
    ETHERIP_HEADER, ETHER_TYPE_IPV6, ETHER_TYPE_VLAN, NEXT_ETHERIP, NEXT_FRAGMENT,
};
use crate::reassembly;
use crate::reassembly::{Arrival, Flow, FragmentKey, Pending, Reassembly};
use std::sync::atomic::{AtomicU32, Ordering};
use vstd::prelude::*;

verus! {

/// The VLAN that an 802.1Q tag puts a frame into.
pub open spec fn vlan_spec(frame: Seq<u8>) -> Option<u16> {
    if frame.len() >= 16 && bytes::be16_spec(frame[12], frame[13]) == ETHER_TYPE_VLAN {
        Some((bytes::be16_spec(frame[14], frame[15]) % 4096) as u16)
    } else {
        None
    }
}

/// The VLAN ID of a tagged frame; of several tags the outermost counts.
pub fn vlan_id(frame: &[u8]) -> (vlan: Option<u16>)
    ensures
        vlan == vlan_spec(frame@),
{
    if frame.len() < 16 || be16(frame[12], frame[13]) != ETHER_TYPE_VLAN {
        return None;
    }
    Some(be16(frame[14], frame[15]) % 4096)
}

/// The index of the first tunnel that passes a test.
pub open spec fn first_tunnel(tunnels: Seq<Tunnel>, test: spec_fn(Tunnel) -> bool) -> Option<int> {
    tunnels.map_values(test).index_of_first(true)
}

/// An index that was found, as a number.
pub open spec fn index_view(index: Option<usize>) -> Option<int> {
    match index {
        Some(i) => Some(i as int),
        None => None,
    }
}

/// The tunnel for a frame from the LAN.
pub open spec fn lan_tunnel(frame: Seq<u8>, tunnels: Seq<Tunnel>) -> Option<int> {
    if tunnels.len() == 1 && tunnels[0].vlan is None {
        Some(0)
    } else {
        match vlan_spec(frame) {
            Some(vlan) => first_tunnel(tunnels, |tunnel: Tunnel| tunnel.vlan == Some(vlan)),
            None => None,
        }
    }
}

/// Whether the far end of a tunnel has the given address.
pub open spec fn leads_to(address: Seq<u8>) -> spec_fn(Tunnel) -> bool {
    |tunnel: Tunnel| tunnel.remote_ipv6@ == address
}

/// The tunnel whose far end has the given address.
pub open spec fn remote_tunnel(address: Seq<u8>, tunnels: Seq<Tunnel>) -> Option<int> {
    first_tunnel(tunnels, leads_to(address))
}

/// The tunnel for a packet from the WAN.
pub open spec fn wan_tunnel(packet: Seq<u8>, tunnels: Seq<Tunnel>) -> Option<int> {
    if packet.len() >= 38 {
        remote_tunnel(packet.subrange(22, 38), tunnels)
    } else {
        None
    }
}

proof fn lemma_first(tunnels: Seq<Tunnel>, test: spec_fn(Tunnel) -> bool, i: int)
    requires
        0 <= i <= tunnels.len(),
        forall|k: int| 0 <= k < i ==> !test(#[trigger] tunnels[k]),
        i < tunnels.len() ==> test(tunnels[i]),
    ensures
        first_tunnel(tunnels, test) == if i < tunnels.len() {
            Some(i)
        } else {
            None
        },
{
    let flags = tunnels.map_values(test);
    flags.index_of_first_ensures(true);
    assert forall|k: int| 0 <= k < i implies !flags[k] by {
        assert(!test(tunnels[k]));
    }
    if i < tunnels.len() {
        assert(flags[i]);
        assert(flags.contains(true));
    }
}

/// A tunnel that is found is one of those that there are, and passes the test.
proof fn first_tunnel_in_range(tunnels: Seq<Tunnel>, test: spec_fn(Tunnel) -> bool)
    ensures
        first_tunnel(tunnels, test) matches Some(i) ==> 0 <= i < tunnels.len() && test(tunnels[i]),
{
    tunnels.map_values(test).index_of_first_ensures(true);
}

/// The tunnel for a frame from the LAN is one of those that there are, and either takes every
/// frame or is the one for the frame's VLAN.
pub proof fn lan_tunnel_in_range(frame: Seq<u8>, tunnels: Seq<Tunnel>)
    ensures
        lan_tunnel(frame, tunnels) matches Some(i) ==> 0 <= i < tunnels.len() && (tunnels[i].vlan
            is None || tunnels[i].vlan == vlan_spec(frame)),
{
    if let Some(vlan) = vlan_spec(frame) {
        first_tunnel_in_range(tunnels, |tunnel: Tunnel| tunnel.vlan == Some(vlan));
    }
}

/// A frame for the VLAN of a tunnel has a tunnel.
pub proof fn lan_tunnel_exists(frame: Seq<u8>, tunnels: Seq<Tunnel>, i: int)
    requires
        0 <= i < tunnels.len(),
        tunnels[i].vlan is Some,
        tunnels[i].vlan == vlan_spec(frame),
    ensures
        lan_tunnel(frame, tunnels) is Some,
{
    let vlan = vlan_spec(frame)->0;
    let flags = tunnels.map_values(|tunnel: Tunnel| tunnel.vlan == Some(vlan));
    flags.index_of_first_ensures(true);
    assert(flags[i]);
}

/// The tunnel that is found for an address is one of those that there are, and has its far end
/// there.
pub proof fn remote_tunnel_in_range(address: Seq<u8>, tunnels: Seq<Tunnel>)
    ensures
        remote_tunnel(address, tunnels) matches Some(i) ==> 0 <= i < tunnels.len()
            && tunnels[i].remote_ipv6@ == address,
{
    first_tunnel_in_range(tunnels, leads_to(address));
}

/// Selects the tunnel for a LAN-side frame. The legacy single tunnel accepts every
/// frame; with VLANs the frame must carry the matching 802.1Q tag.
pub fn tunnel_for_lan_frame(frame: &[u8], tunnels: &[Tunnel]) -> (index: Option<usize>)
    ensures
        index_view(index) == lan_tunnel(frame@, tunnels@),
        index matches Some(i) ==> i < tunnels@.len(),
{
    if tunnels.len() == 1 && tunnels[0].vlan.is_none() {
        return Some(0);
    }
    let vlan: u16 = match vlan_id(frame) {
        Some(vlan) => vlan,
        None => {
            return None;
        },
    };
    let ghost test = |tunnel: Tunnel| tunnel.vlan == Some(vlan);
    let mut i: usize = 0;
    while i < tunnels.len()
        invariant
            i <= tunnels@.len(),
            !(tunnels@.len() == 1 && tunnels@[0].vlan is None),
            vlan_spec(frame@) == Some(vlan),
            test == (|tunnel: Tunnel| tunnel.vlan == Some(vlan)),
            forall|k: int| 0 <= k < i ==> !test(#[trigger] tunnels@[k]),
        decreases tunnels@.len() - i,
    {
        if tunnels[i].vlan == Some(vlan) {
            proof {
                lemma_first(tunnels@, test, i as int);
            }
            return Some(i);
        }
        i += 1;
    }
    proof {
        lemma_first(tunnels@, test, i as int);
    }
    None
}

/// Selects the tunnel by the address of its far end.
pub fn tunnel_for_remote(address: &Ipv6Addr, tunnels: &[Tunnel]) -> (index: Option<usize>)
    ensures
        index_view(index) == remote_tunnel(address@, tunnels@),
        index matches Some(i) ==> i < tunnels@.len(),
{
    let ghost test = leads_to(address@);
    let mut i: usize = 0;
    while i < tunnels.len()
        invariant
            i <= tunnels@.len(),
            test == leads_to(address@),
            forall|k: int| 0 <= k < i ==> !test(#[trigger] tunnels@[k]),
        decreases tunnels@.len() - i,
    {
        if tunnels[i].remote_ipv6 == *address {
            proof {
                lemma_first(tunnels@, test, i as int);
            }
            return Some(i);
        }
        i += 1;
    }
    proof {
        lemma_first(tunnels@, test, i as int);
    }
    None
}

/// Selects the tunnel that an outer WAN packet belongs to by its source address.
pub fn tunnel_index_for_wan(packet: &[u8], tunnels: &[Tunnel]) -> (index: Option<usize>)
    ensures
        index_view(index) == wan_tunnel(packet@, tunnels@),
        index matches Some(i) ==> i < tunnels@.len(),
{
    if packet.len() < 38 {
        return None;
    }
    let source = Ipv6Addr { octets: array16_at(packet, 22) };
    tunnel_for_remote(&source, tunnels)
}

/// The outer Ethernet and IPv6 headers of a packet into the tunnel.
pub open spec fn outer_header(
    tunnel: Tunnel,
    source_mac: Seq<u8>,
    next: u8,
    payload_length: int,
) -> Seq<u8> {
    tunnel.next_hop_mac@ + source_mac + bytes::be16_bytes(ETHER_TYPE_IPV6 as int) + seq![
        0x60u8,
        0u8,
        0u8,
        0u8,
    ] + bytes::be16_bytes(payload_length) + seq![next, 64u8] + tunnel.local_ipv6@
        + tunnel.remote_ipv6@
}

/// A packet into the tunnel.
pub open spec fn ipv6_spec(
    tunnel: Tunnel,
    source_mac: Seq<u8>,
    next: u8,
    payload: Seq<u8>,
) -> Seq<u8> {
    outer_header(tunnel, source_mac, next, payload.len() as int) + payload
}

/// Builds the outer Ethernet and IPv6 headers. The length field keeps the low 16 bits.
fn write_outer_header(
    tunnel: &Tunnel,
    source_mac: &[u8; 6],
    next: u8,
    payload_length: usize,
) -> (header: Vec<u8>)
    ensures
        header@ == outer_header(*tunnel, source_mac@, next, payload_length as int),
        header@.len() == 54,
{
    let mut header: Vec<u8> = Vec::with_capacity(56);
    push_bytes(&mut header, &tunnel.next_hop_mac);
    assert(header@ =~= tunnel.next_hop_mac@);
    push_bytes(&mut header, source_mac);
    push_be16(&mut header, ETHER_TYPE_IPV6);
    let ghost before = header@;
    header.push(0x60);
    header.push(0);
    header.push(0);
    header.push(0);
    assert(header@ =~= before + seq![0x60u8, 0u8, 0u8, 0u8]);
    let length: u16 = (payload_length % 65_536) as u16;
    assert(bytes::be16_bytes(length as int) == bytes::be16_bytes(payload_length as int)) by {
        let n = payload_length as int;
        assert((n % 65_536) / 256 % 256 == n / 256 % 256);
        assert((n % 65_536) % 256 == n % 256);
    }
    push_be16(&mut header, length);
    let ghost before = header@;
    header.push(next);
    header.push(64);
    assert(header@ =~= before + seq![next, 64u8]);
    push_bytes(&mut header, &tunnel.local_ipv6.octets);
    push_bytes(&mut header, &tunnel.remote_ipv6.octets);
    header
}

/// Builds a packet into the tunnel.
pub fn ipv6_packet(tunnel: &Tunnel, source_mac: [u8; 6], next: u8, payload: &[u8]) -> (packet: Vec<
    u8,
>)
    ensures
        packet@ == ipv6_spec(*tunnel, source_mac@, next, payload@),
{
    let mut packet = write_outer_header(tunnel, &source_mac, next, payload.len());
    push_bytes(&mut packet, payload);
    packet
}

/// The frame behind an EtherIP header of version 3 whose reserved bits are zero.
pub open spec fn etherip_spec(payload: Seq<u8>) -> Option<Seq<u8>> {
    if payload.len() >= 2 && payload[0] == ETHERIP_HEADER[0] && payload[1] == ETHERIP_HEADER[1] {
        Some(payload.skip(2))
    } else {
        None
    }
}

/// The frame in an EtherIP payload.
pub fn etherip_payload(payload: &[u8]) -> (frame: Option<&[u8]>)
    ensures
        match frame {
            Some(frame) => etherip_spec(payload@) == Some(frame@),
            None => etherip_spec(payload@) is None,
        },
{
    if payload.len() >= 2 && payload[0] == ETHERIP_HEADER[0] && payload[1] == ETHERIP_HEADER[1] {
        Some(vstd::slice::slice_subrange(payload, 2, payload.len()))
    } else {
        None
    }
}

/// A frame behind an EtherIP header.
pub open spec fn etherip_frame(frame: Seq<u8>) -> Seq<u8> {
    ETHERIP_HEADER@ + frame
}

/// The bytes of a payload that one fragment carries: what the MTU leaves, in units of eight.
pub open spec fn chunk_size(mtu: int) -> int {
    (mtu - 48) / 8 * 8
}

/// How many pieces of at most `chunk` bytes a payload has.
pub open spec fn chunk_count(length: int, chunk: int) -> int {
    (length + chunk - 1) / chunk
}

/// Where a piece of a payload ends.
pub open spec fn chunk_end(length: int, chunk: int, i: int) -> int {
    if (i + 1) * chunk < length {
        (i + 1) * chunk
    } else {
        length
    }
}

/// The fragment header and the bytes of a piece of `payload`.
pub open spec fn fragment_body(payload: Seq<u8>, chunk: int, id: u32, i: int) -> Seq<u8> {
    let start = i * chunk;
    let end = chunk_end(payload.len() as int, chunk, i);
    let more: int = if end < payload.len() {
        1
    } else {
        0
    };
    seq![NEXT_ETHERIP, 0u8] + bytes::be16_bytes(start + more) + bytes::be32_bytes(id as int)
        + payload.subrange(start, end)
}

/// The packets that carry `frame` in fragments, or why there can be none.
pub open spec fn fragments_spec(
    frame: Seq<u8>,
    tunnel: Tunnel,
    mtu: int,
    source_mac: Seq<u8>,
    id: u32,
) -> Result<Seq<Seq<u8>>, Error> {
    let payload = etherip_frame(frame);
    let chunk = chunk_size(mtu);
    if payload.len() > 65_535 {
        Err(Error::PayloadLimit)
    } else if mtu < 48 {
        Err(Error::MtuTooSmall)
    } else if chunk == 0 {
        Err(Error::Unfragmentable)
    } else {
        Ok(
            Seq::new(
                chunk_count(payload.len() as int, chunk) as nat,
                |i: int|
                    ipv6_spec(
                        tunnel,
                        source_mac,
                        NEXT_FRAGMENT,
                        fragment_body(payload, chunk, id, i),
                    ),
            ),
        )
    }
}

/// The bytes of packets.
pub open spec fn packets_view(packets: Seq<Vec<u8>>) -> Seq<Seq<u8>> {
    packets.map_values(|packet: Vec<u8>| packet@)
}

/// The bytes of the packets that a frame became, or why it did not.
pub open spec fn fragments_view(packets: Result<Vec<Vec<u8>>, Error>) -> Result<
    Seq<Seq<u8>>,
    Error,
> {
    match packets {
        Ok(packets) => Ok(packets_view(packets@)),
        Err(error) => Err(error),
    }
}

/// A number of which the fragments of one packet can be told; two calls give different ones
/// until the counter has gone round.
fn next_id(id: &AtomicU32) -> u32 {
    id.fetch_add(1, Ordering::Relaxed)
}

/// Cuts a frame into fragments under the next identification.
pub fn fragment_packets(
    frame: &[u8],
    tunnel: &Tunnel,
    mtu: usize,
    source_mac: [u8; 6],
    id: &AtomicU32,
) -> (packets: Result<Vec<Vec<u8>>, Error>)
    ensures
        exists|id: u32|
            fragments_view(packets) == #[trigger] fragments_spec(
                frame@,
                *tunnel,
                mtu as int,
                source_mac@,
                id,
            ),
{
    match fragment_error(frame.len(), mtu) {
        Some(error) => {
            assert(fragments_spec(frame@, *tunnel, mtu as int, source_mac@, 0) == Err::<
                Seq<Seq<u8>>,
                Error,
            >(error));
            Err(error)
        },
        None => {
            let id: u32 = next_id(id);
            fragment_packets_with(frame, tunnel, mtu, source_mac, id)
        },
    }
}

/// Why a frame of the given length cannot be cut into fragments, whatever is in it.
fn fragment_error(length: usize, mtu: usize) -> (error: Option<Error>)
    ensures
        error == if length + 2 > 65_535 {
            Some(Error::PayloadLimit)
        } else if mtu < 48 {
            Some(Error::MtuTooSmall)
        } else if chunk_size(mtu as int) == 0 {
            Some(Error::Unfragmentable)
        } else {
            None
        },
{
    if length > 65_533 {
        Some(Error::PayloadLimit)
    } else if mtu < 48 {
        Some(Error::MtuTooSmall)
    } else if (mtu - 48) / 8 == 0 {
        Some(Error::Unfragmentable)
    } else {
        None
    }
}

proof fn lemma_chunk_count(length: int, chunk: int, i: int)
    requires
        0 < chunk,
        0 <= i,
        i == 0 || (i - 1) * chunk < length,
        length <= i * chunk,
        length > 0,
    ensures
        chunk_count(length, chunk) == i,
{
    assert(i > 0);
    let n = length + chunk - 1;
    assert(i * chunk <= n < (i + 1) * chunk) by (nonlinear_arith)
        requires
            n == length + chunk - 1,
            (i - 1) * chunk < length,
            length <= i * chunk,
            chunk > 0,
    ;
    assert(n / chunk == i) by (nonlinear_arith)
        requires
            i * chunk <= n,
            n < (i + 1) * chunk,
            chunk > 0,
    ;
}

/// Cuts a frame into fragments under the given identification.
pub fn fragment_packets_with(
    frame: &[u8],
    tunnel: &Tunnel,
    mtu: usize,
    source_mac: [u8; 6],
    id: u32,
) -> (packets: Result<Vec<Vec<u8>>, Error>)
    ensures
        fragments_view(packets) == fragments_spec(
            frame@,
            *tunnel,
            mtu as int,
            source_mac@,
            id,
        ),
{
    match fragment_error(frame.len(), mtu) {
        Some(error) => {
            return Err(error);
        },
        None => {},
    }
    let mut payload: Vec<u8> = Vec::with_capacity(frame.len() + 2);
    push_bytes(&mut payload, &ETHERIP_HEADER);
    push_bytes(&mut payload, frame);
    assert(payload@ =~= etherip_frame(frame@));
    let chunk: usize = (mtu - 48) / 8 * 8;
    let length: usize = payload.len();
    let mut packets: Vec<Vec<u8>> = Vec::new();
    let mut start: usize = 0;
    let ghost mut i: int = 0;
    let ghost packet_at = |i: int|
        ipv6_spec(
            *tunnel,
            source_mac@,
            NEXT_FRAGMENT,
            fragment_body(payload@, chunk as int, id, i),
        );
    while start < length
        invariant
            chunk > 0,
            chunk % 8 == 0,
            chunk <= usize::MAX - 48,
            length == payload@.len() <= 65_535,
            length > 0,
            0 <= i,
            i == 0 || (i - 1) * chunk < length,
            start == if i * chunk < length {
                i * chunk
            } else {
                length as int
            },
            packet_at == (|i: int|
                ipv6_spec(
                    *tunnel,
                    source_mac@,
                    NEXT_FRAGMENT,
                    fragment_body(payload@, chunk as int, id, i),
                )),
            packets_view(packets@) == Seq::new(i as nat, packet_at),
        decreases length - start,
    {
        proof {
            assert((i + 1) * chunk == i * chunk + chunk) by (nonlinear_arith);
            let eighth = chunk as int / 8;
            assert(i * chunk == 8 * (i * eighth)) by (nonlinear_arith)
                requires
                    chunk == 8 * eighth,
            ;
        }
        let end: usize = if chunk < length - start {
            start + chunk
        } else {
            length
        };
        let more: u16 = if end < length {
            1
        } else {
            0
        };
        let mut body: Vec<u8> = Vec::with_capacity(8 + (end - start));
        body.push(NEXT_ETHERIP);
        body.push(0);
        assert(body@ =~= seq![NEXT_ETHERIP, 0u8]);
        push_be16(&mut body, start as u16 + more);
        push_be32(&mut body, id);
        push_bytes(&mut body, vstd::slice::slice_subrange(payload.as_slice(), start, end));
        assert(body@ == fragment_body(payload@, chunk as int, id, i));
        let ghost before = packets@;
        packets.push(ipv6_packet(tunnel, source_mac, NEXT_FRAGMENT, &body));
        proof {
            assert(packets_view(packets@) =~= packets_view(before).push(packet_at(i)));
            assert(packets_view(packets@) =~= Seq::new((i + 1) as nat, packet_at));
            i = i + 1;
        }
        start = end;
    }
    proof {
        lemma_chunk_count(length as int, chunk as int, i);
        let expected = fragments_spec(frame@, *tunnel, mtu as int, source_mac@, id)->Ok_0;
        assert(packets_view(packets@) =~= expected);
    }
    Ok(packets)
}

/// A tagged frame without its 802.1Q tag.
pub open spec fn untagged(frame: Seq<u8>) -> Seq<u8> {
    frame.take(12) + frame.skip(16)
}

/// A frame with an 802.1Q tag behind its addresses.
pub open spec fn tagged(frame: Seq<u8>, vlan: u16) -> Seq<u8> {
    frame.take(12) + bytes::be16_bytes(ETHER_TYPE_VLAN as int) + bytes::be16_bytes(vlan as int)
        + frame.skip(12)
}

/// Moves what follows the tag over it; the last four bytes stay where they are.
fn close_gap(data: &mut [u8])
    requires
        old(data)@.len() >= 16,
    ensures
        final(data)@ == untagged(old(data)@) + old(data)@.skip(old(data)@.len() - 4),
{
    let length: usize = data.len();
    let ghost before = data@;
    let mut i: usize = 12;
    while i < length - 4
        invariant
            12 <= i <= length - 4,
            length == before.len(),
            data@.len() == length,
            length >= 16,
            forall|k: int| 0 <= k < 12 ==> data@[k] == before[k],
            forall|k: int| 12 <= k < i ==> data@[k] == before[k + 4],
            forall|k: int| i <= k < length ==> data@[k] == before[k],
        decreases length - i,
    {
        data[i] = data[i + 4];
        i += 1;
    }
    assert(data@ =~= untagged(before) + before.skip(length - 4));
}

/// Moves what follows the addresses four bytes back and writes a tag before it.
fn open_gap(data: &mut [u8], vlan: u16)
    requires
        old(data)@.len() >= 16,
    ensures
        final(data)@ == tagged(old(data)@.take(old(data)@.len() - 4), vlan),
{
    let length: usize = data.len();
    let ghost before = data@;
    let mut i: usize = length;
    while i > 16
        invariant
            16 <= i <= length,
            length == before.len(),
            data@.len() == length,
            forall|k: int| 0 <= k < i ==> data@[k] == before[k],
            forall|k: int| i <= k < length ==> data@[k] == before[k - 4],
        decreases i,
    {
        i -= 1;
        data[i] = data[i - 4];
    }
    data[12] = 0x81;
    data[13] = 0x00;
    data[14] = (vlan / 256) as u8;
    data[15] = (vlan % 256) as u8;
    assert(data@ =~= tagged(before.take(length - 4), vlan));
}

/// What becomes of a packet from which the VLAN tag is to be taken.
pub open spec fn stripped(packet: PacketModel) -> Result<PacketModel, Error> {
    if !packet.single() {
        Err(Error::MultiSegmentVlanPacket)
    } else if vlan_spec(packet.data()) is None {
        Err(Error::NoVlanTag)
    } else {
        Ok(packet.with_first(packet.first.replaced(untagged(packet.data()))))
    }
}

/// Removes the 4-byte 802.1Q header so the tunnel carries an untagged frame.
pub fn strip_vlan_tag(packet: &mut Packet) -> (done: Result<(), Error>)
    requires
        old(packet)@.wf(),
    ensures
        final(packet)@.wf(),
        match done {
            Ok(_) => {
                &&& stripped(old(packet)@) == Ok::<PacketModel, Error>(final(packet)@)
                &&& final(packet)@.data() == untagged(old(packet)@.data())
            },
            Err(error) => {
                &&& stripped(old(packet)@) == Err::<PacketModel, Error>(error)
                &&& final(packet)@ == old(packet)@
            },
        },
{
    match packet.data() {
        Some(data) => {
            if data.len() < 16 || be16(data[12], data[13]) != ETHER_TYPE_VLAN {
                return Err(Error::NoVlanTag);
            }
        },
        None => {
            return Err(Error::MultiSegmentVlanPacket);
        },
    }
    let ghost before = packet@;
    match packet.data_mut() {
        Some(data) => close_gap(data),
        None => {},
    }
    let ghost moved = packet@;
    proof {
        let data = before.data();
        assert(moved.first == before.first.overwritten(
            untagged(data) + data.skip(data.len() - 4),
        ));
        assert(moved.first.trimmed(4).buffer =~= before.first.replaced(untagged(data)).buffer);
        assert(before.first.replaced(untagged(data)).data() =~= untagged(data));
    }
    packet.trim_tail(4)
}

/// What becomes of a packet into which a VLAN tag is to be put.
pub open spec fn vlan_added(packet: PacketModel, vlan: u16) -> Result<PacketModel, Error> {
    if packet.last().tailroom() < 4 {
        Err(Error::Tailroom)
    } else if !packet.single() {
        Err(Error::MultiSegmentTunnelFrame)
    } else {
        Ok(packet.with_first(packet.first.replaced(tagged(packet.data(), vlan))))
    }
}

/// A segment with bytes of its tailroom taken into the data as they are.
pub open spec fn grown(segment: SegmentModel, count: int) -> SegmentModel {
    SegmentModel {
        buffer: segment.buffer,
        offset: segment.offset,
        length: segment.length + count,
    }
}

/// Prepends the configured 802.1Q header to a frame received from a tunnel.
pub fn add_vlan_tag(packet: &mut Packet, vlan: u16) -> (done: Result<(), Error>)
    requires
        old(packet)@.wf(),
        old(packet)@.single() && old(packet)@.last().tailroom() >= 4 ==> old(
            packet,
        )@.data().len() >= 12,
    ensures
        match done {
            Ok(_) => {
                &&& final(packet)@.wf()
                &&& vlan_added(old(packet)@, vlan) == Ok::<PacketModel, Error>(final(packet)@)
                &&& final(packet)@.data() == tagged(old(packet)@.data(), vlan)
            },
            Err(error) => {
                &&& vlan_added(old(packet)@, vlan) == Err::<PacketModel, Error>(error)
                &&& error == Error::Tailroom ==> final(packet)@ == old(packet)@
                &&& error == Error::MultiSegmentTunnelFrame ==> final(packet)@ == old(
                    packet,
                )@.with_last(grown(old(packet)@.last(), 4))
            },
        },
{
    let ghost before = packet@;
    match packet.append(4) {
        Ok(_) => {},
        Err(error) => {
            return Err(error);
        },
    }
    let ghost longer = packet@;
    proof {
        let last = before.last();
        let end = last.offset + last.length;
        let tail = last.buffer.subrange(end, end + 4);
        assert(longer == before.with_last(last.appended(tail)));
        assert(last.appended(tail).buffer =~= last.buffer);
        assert(last.appended(tail) == grown(last, 4));
    }
    match packet.data_mut() {
        Some(data) => {
            proof {
                assert(data@.take(data@.len() - 4) =~= before.data());
            }
            open_gap(data, vlan);
        },
        None => {
            return Err(Error::MultiSegmentTunnelFrame);
        },
    }
    proof {
        let data = tagged(before.data(), vlan);
        assert(packet@.first == longer.first.overwritten(data));
        assert(packet@.first.buffer =~= before.first.replaced(data).buffer);
        assert(packet@.first.data() =~= data);
    }
    Ok(())
}

/// Why an outer packet does not belong to a tunnel.
#[derive(Clone, Copy, Debug, PartialEq, Eq, Structural)]
pub enum OuterError {
    Short,
    EtherType,
    Version,
    Length,
    Protocol,
    Source,
    Destination,
}

/// The payload length that an IPv6 header behind an Ethernet header gives.
pub open spec fn payload_length(packet: Seq<u8>) -> int {
    bytes::be16_spec(packet[18], packet[19])
}

/// Whether a packet is one of the tunnel's: the first thing that is wrong with it.
pub open spec fn outer_spec(packet: Seq<u8>, tunnel: Tunnel) -> Result<(), OuterError> {
    if packet.len() < 54 {
        Err(OuterError::Short)
    } else if bytes::be16_spec(packet[12], packet[13]) != ETHER_TYPE_IPV6 {
        Err(OuterError::EtherType)
    } else if packet[14] / 16 != 6 {
        Err(OuterError::Version)
    } else if packet.len() < 54 + payload_length(packet) {
        Err(OuterError::Length)
    } else if packet[20] != NEXT_ETHERIP && packet[20] != NEXT_FRAGMENT {
        Err(OuterError::Protocol)
    } else if packet.subrange(22, 38) != tunnel.remote_ipv6@ {
        Err(OuterError::Source)
    } else if packet.subrange(38, 54) != tunnel.local_ipv6@ {
        Err(OuterError::Destination)
    } else {
        Ok(())
    }
}

/// Checks that an outer packet comes from the far end of the tunnel to this one.
pub fn valid_outer_packet(packet: &[u8], tunnel: &Tunnel) -> (valid: Result<(), OuterError>)
    ensures
        valid == outer_spec(packet@, *tunnel),
{
    if packet.len() < 54 {
        return Err(OuterError::Short);
    }
    if be16(packet[12], packet[13]) != ETHER_TYPE_IPV6 {
        return Err(OuterError::EtherType);
    }
    if packet[14] / 16 != 6 {
        return Err(OuterError::Version);
    }
    let payload_length: usize = be16(packet[18], packet[19]) as usize;
    if packet.len() < 54 + payload_length {
        return Err(OuterError::Length);
    }
    if packet[20] != NEXT_ETHERIP && packet[20] != NEXT_FRAGMENT {
        return Err(OuterError::Protocol);
    }
    if !same_bytes(vstd::slice::slice_subrange(packet, 22, 38), &tunnel.remote_ipv6.octets) {
        return Err(OuterError::Source);
    }
    if !same_bytes(vstd::slice::slice_subrange(packet, 38, 54), &tunnel.local_ipv6.octets) {
        return Err(OuterError::Destination);
    }
    Ok(())
}

/// What is sent: packets, or an error and the packets that were sent before it.
pub type Sending = Result<Seq<PacketModel>, (Error, Seq<PacketModel>)>;

/// Nothing but an error.
pub open spec fn failed(error: Error) -> Sending {
    Err((error, Seq::empty()))
}

/// The buffers for packets, each a fresh one, up to the first that cannot be had.
pub open spec fn all_allocated(dpdk: Environment, packets: Seq<Seq<u8>>) -> Sending
    decreases packets.len(),
{
    if packets.len() == 0 {
        Ok(Seq::empty())
    } else {
        match all_allocated(dpdk, packets.drop_last()) {
            Ok(front) => match dpdk::allocated(
                dpdk::after_taking(dpdk, front.len() as int),
                packets.last(),
            ) {
                Ok(packet) => Ok(front.push(packet)),
                Err(error) => Err((error, front)),
            },
            Err(failure) => Err(failure),
        }
    }
}

/// The packets into the tunnel that carry a frame, or why there are none. A frame within the
/// MTU goes out in its own buffer behind the outer headers, a longer one in fragments.
pub open spec fn encapsulated(
    packet: PacketModel,
    dpdk: Environment,
    tunnel: Tunnel,
    mtu: int,
    source_mac: Seq<u8>,
    id: u32,
) -> Sending {
    let frame = packet.data();
    if !packet.single() {
        failed(Error::MultiSegmentLanPacket)
    } else if 40 + ETHERIP_HEADER@.len() + frame.len() <= mtu {
        if packet.first.offset < 56 {
            failed(Error::Headroom)
        } else {
            let header = outer_header(tunnel, source_mac, NEXT_ETHERIP, (frame.len() + 2) as int)
                + ETHERIP_HEADER@;
            Ok(seq![packet.with_first(packet.first.prepended(header))])
        }
    } else {
        match fragments_spec(frame, tunnel, mtu, source_mac, id) {
            Ok(packets) => all_allocated(dpdk, packets),
            Err(error) => failed(error),
        }
    }
}

/// What packets hold.
pub open spec fn models(packets: Seq<Packet>) -> Seq<PacketModel> {
    packets.map_values(|packet: Packet| packet@)
}

/// Whether `after` is `before` with packets behind it that hold `added`.
pub open spec fn extends(before: Seq<Packet>, after: Seq<Packet>, added: Seq<PacketModel>) -> bool {
    &&& before.len() <= after.len()
    &&& after.take(before.len() as int) == before
    &&& models(after.skip(before.len() as int)) == added
    &&& forall|i: int| before.len() <= i < after.len() ==> (#[trigger] after[i])@.wf()
}

/// Whether a call did what `expected` says: put packets behind those that were there, or failed
/// with an error behind which those stand that came before it.
pub open spec fn answered(
    done: Result<(), Error>,
    expected: Sending,
    before: Seq<Packet>,
    after: Seq<Packet>,
) -> bool {
    match (done, expected) {
        (Ok(_), Ok(added)) => extends(before, after, added),
        (Err(error), Err((why, added))) => error == why && extends(before, after, added),
        _ => false,
    }
}

/// A call that adds nothing leaves the packets as they are.
pub proof fn lemma_extends_nothing(packets: Seq<Packet>)
    ensures
        extends(packets, packets, Seq::empty()),
{
    assert(packets.take(packets.len() as int) =~= packets);
    assert(models(packets.skip(packets.len() as int)) =~= Seq::empty());
}

proof fn lemma_failed_front(dpdk: Environment, packets: Seq<Seq<u8>>, count: int)
    requires
        0 <= count <= packets.len(),
        all_allocated(dpdk, packets.take(count)) is Err,
    ensures
        all_allocated(dpdk, packets) == all_allocated(dpdk, packets.take(count)),
    decreases packets.len(),
{
    if count == packets.len() {
        assert(packets.take(count) =~= packets);
    } else {
        assert(packets.drop_last().take(count) =~= packets.take(count));
        lemma_failed_front(dpdk, packets.drop_last(), count);
    }
}

/// A piece starts before the end of the payload and holds at least one byte.
pub proof fn lemma_chunk_range(length: int, chunk: int, i: int)
    requires
        0 < chunk,
        0 < length,
        0 <= i < chunk_count(length, chunk),
    ensures
        0 <= i * chunk < chunk_end(length, chunk, i) <= length,
        chunk_end(length, chunk, i) - i * chunk <= chunk,
        i < chunk_count(length, chunk) - 1 <==> (i + 1) * chunk < length,
{
    let n = length + chunk - 1;
    let count = n / chunk;
    assert(count * chunk <= n < (count + 1) * chunk) by (nonlinear_arith)
        requires
            count == n / chunk,
            chunk > 0,
    ;
    assert(i * chunk < length && (i + 1) * chunk == i * chunk + chunk && i * chunk >= 0 && (i < count
        - 1 <==> (i + 1) * chunk < length)) by (nonlinear_arith)
        requires
            0 <= i < count,
            chunk > 0,
            n == length + chunk - 1,
            count * chunk <= n,
            n < (count + 1) * chunk,
    ;
}

/// Puts the outer headers in front of a frame, in its own buffer.
fn prepend_headers(packet: &mut Packet, tunnel: &Tunnel, source_mac: &[u8; 6], length: usize) -> (done:
    Result<(), Error>)
    requires
        old(packet)@.wf(),
        old(packet)@.single(),
        length == old(packet)@.data().len(),
    ensures
        match done {
            Ok(_) => {
                &&& final(packet)@.wf()
                &&& old(packet)@.first.offset >= 56
                &&& final(packet)@ == old(packet)@.with_first(
                    old(packet)@.first.prepended(
                        outer_header(*tunnel, source_mac@, NEXT_ETHERIP, length + 2)
                            + ETHERIP_HEADER@,
                    ),
                )
            },
            Err(error) => error == Error::Headroom && old(packet)@.first.offset < 56,
        },
{
    let mut bytes = write_outer_header(tunnel, source_mac, NEXT_ETHERIP, length + 2);
    push_bytes(&mut bytes, &ETHERIP_HEADER);
    match packet.prepend(56) {
        Ok(header) => {
            copy_bytes(header, &bytes);
        },
        Err(error) => {
            return Err(error);
        },
    }
    Ok(())
}

/// Puts packets into buffers behind those in `out`.
fn push_packets(dpdk: &Environment, packets: &Vec<Vec<u8>>, out: &mut Vec<Packet>) -> (done: Result<
    (),
    Error,
>)
    ensures
        answered(done, all_allocated(*dpdk, packets_view(packets@)), old(out)@, final(out)@),
{
    let ghost view = packets_view(packets@);
    let ghost before = out@;
    let mut left = *dpdk;
    let mut i: usize = 0;
    proof {
        lemma_extends_nothing(out@);
        assert(view.take(0).len() == 0);
    }
    while i < packets.len()
        invariant
            i <= packets@.len(),
            view == packets_view(packets@),
            before == old(out)@,
            left == dpdk::after_taking(*dpdk, i as int),
            all_allocated(*dpdk, view.take(i as int)) matches Ok(made) && made.len() == i
                && extends(before, out@, made),
        decreases packets@.len() - i,
    {
        let ghost front = view.take(i + 1);
        proof {
            assert(front.drop_last() =~= view.take(i as int));
            assert(front.last() == packets@[i as int]@);
        }
        let packet = match left.packet(&packets[i]) {
            Ok(packet) => packet,
            Err(error) => {
                proof {
                    lemma_failed_front(*dpdk, view, i + 1);
                }
                return Err(error);
            },
        };
        let ghost made = out@;
        let ghost buffers = all_allocated(*dpdk, view.take(i as int))->Ok_0;
        out.push(packet);
        proof {
            assert(out@.take(before.len() as int) =~= made.take(before.len() as int));
            assert(models(out@.skip(before.len() as int)) =~= buffers.push(packet@)) by {
                assert(models(out@.skip(before.len() as int)) =~= models(
                    made.skip(before.len() as int),
                ).push(packet@));
            }
            assert(all_allocated(*dpdk, front) == Ok::<
                Seq<PacketModel>,
                (Error, Seq<PacketModel>),
            >(buffers.push(packet@)));
        }
        left.available = if left.available > 0 {
            left.available - 1
        } else {
            0
        };
        i += 1;
    }
    assert(view.take(i as int) =~= view);
    Ok(())
}

/// Wraps a LAN frame as an EtherIP packet, prepending the outer header in place or
/// producing IPv6 fragments when the frame exceeds the current path MTU. Resulting
/// packets are appended to `out` to avoid per-packet allocations.
pub fn encapsulate_packet(
    packet: Packet,
    dpdk: &Environment,
    tunnel: &Tunnel,
    mtu: usize,
    source_mac: [u8; 6],
    id: &AtomicU32,
    out: &mut Vec<Packet>,
) -> (done: Result<(), Error>)
    requires
        packet@.wf(),
    ensures
        exists|id: u32|
            answered(
                done,
                #[trigger] encapsulated(
                    packet@,
                    *dpdk,
                    *tunnel,
                    mtu as int,
                    source_mac@,
                    id,
                ),
                old(out)@,
                final(out)@,
            ),
{
    let fragmented = match packet.data() {
        Some(frame) => frame.len() <= 65_533 && !fits(frame.len(), mtu) && mtu >= 56,
        None => false,
    };
    let number: u32 = if fragmented {
        next_id(id)
    } else {
        0
    };
    encapsulate_packet_with(packet, dpdk, tunnel, mtu, source_mac, number, out)
}

/// Whether a frame of the given length goes into one packet.
fn fits(length: usize, mtu: usize) -> (fits: bool)
    ensures
        fits == (40 + ETHERIP_HEADER@.len() + length <= mtu),
{
    mtu >= 42 && length <= mtu - 42
}

/// Wraps a LAN frame; fragments carry the given identification.
pub fn encapsulate_packet_with(
    packet: Packet,
    dpdk: &Environment,
    tunnel: &Tunnel,
    mtu: usize,
    source_mac: [u8; 6],
    id: u32,
    out: &mut Vec<Packet>,
) -> (done: Result<(), Error>)
    requires
        packet@.wf(),
    ensures
        answered(
            done,
            encapsulated(packet@, *dpdk, *tunnel, mtu as int, source_mac@, id),
            old(out)@,
            final(out)@,
        ),
{
    let mut packet = packet;
    proof {
        lemma_extends_nothing(out@);
    }
    let frame: &[u8] = match packet.data() {
        Some(frame) => frame,
        None => {
            return Err(Error::MultiSegmentLanPacket);
        },
    };
    let length: usize = frame.len();
    if fits(length, mtu) {
        match prepend_headers(&mut packet, tunnel, &source_mac, length) {
            Ok(_) => {},
            Err(error) => {
                return Err(error);
            },
        }
        let ghost before = out@;
        out.push(packet);
        proof {
            assert(out@.take(before.len() as int) =~= before);
            assert(models(out@.skip(before.len() as int)) =~= seq![packet@]);
        }
        return Ok(());
    }
    let packets = match fragment_packets_with(frame, tunnel, mtu, source_mac, id) {
        Ok(packets) => packets,
        Err(error) => {
            return Err(error);
        },
    };
    push_packets(dpdk, &packets, out)
}

/// The packets that wait for fragments, and a frame from the tunnel if there is one.
pub type Decapsulated = (Map<Flow, Pending>, Result<Option<PacketModel>, Error>);

/// The payload of an outer packet.
pub open spec fn outer_payload(data: Seq<u8>) -> Seq<u8> {
    data.subrange(54, 54 + payload_length(data))
}

/// Whether a payload starts with the fragment header of an EtherIP packet.
pub open spec fn is_fragment(payload: Seq<u8>) -> bool {
    &&& payload.len() >= 8
    &&& payload[0] == NEXT_ETHERIP
    &&& payload[1] == 0
    &&& bytes::be16_spec(payload[2], payload[3]) / 2 % 4 == 0
}

/// What a frame that has been put together becomes.
pub open spec fn reassembled(dpdk: Environment, payload: Option<Seq<u8>>) -> Result<
    Option<PacketModel>,
    Error,
> {
    match payload {
        Some(payload) => match etherip_spec(payload) {
            Some(frame) => match dpdk::allocated(dpdk, frame) {
                Ok(packet) => Ok(Some(packet)),
                Err(error) => Err(error),
            },
            None => Ok(None),
        },
        None => Ok(None),
    }
}

/// A packet without its outer headers and without what the link put behind its payload.
pub open spec fn unwrapped(packet: PacketModel) -> PacketModel {
    let data = packet.data();
    packet.with_first(
        packet.first.adjusted(56).trimmed(data.len() - 54 - payload_length(data)),
    )
}

/// What comes of an outer packet that arrives at time `now`. A whole packet gives up its outer
/// headers and the padding of the link in its own buffer; a fragment joins those that wait.
pub open spec fn decapsulated(
    packet: PacketModel,
    dpdk: Environment,
    tunnel: Tunnel,
    packets: Map<Flow, Pending>,
    now: int,
) -> Decapsulated {
    let data = packet.data();
    let payload = outer_payload(data);
    if !packet.single() || outer_spec(data, tunnel) is Err {
        (packets, Ok(None))
    } else if data[20] == NEXT_ETHERIP {
        if etherip_spec(payload) is Some {
            (packets, Ok(Some(unwrapped(packet))))
        } else {
            (packets, Ok(None))
        }
    } else if is_fragment(payload) {
        let field = bytes::be16_spec(payload[2], payload[3]);
        let key = (
            data.subrange(22, 38),
            data.subrange(38, 54),
            bytes::be32_spec(payload.subrange(4, 8)) as u32,
        );
        let (after, whole) = reassembly::arrival(
            packets,
            key,
            field / 8 * 8,
            field % 2 == 1,
            payload.skip(8),
            now,
        );
        (after, reassembled(dpdk, whole))
    } else {
        (packets, Ok(None))
    }
}

/// The fragment that an outer packet adds to the packets that wait.
pub open spec fn fragment_in(packet: PacketModel, tunnel: Tunnel, now: int) -> Option<Arrival> {
    let data = packet.data();
    let payload = outer_payload(data);
    if packet.single() && outer_spec(data, tunnel) is Ok && data[20] != NEXT_ETHERIP && is_fragment(
        payload,
    ) {
        let field = bytes::be16_spec(payload[2], payload[3]);
        Some(
            Arrival {
                key: (
                    data.subrange(22, 38),
                    data.subrange(38, 54),
                    bytes::be32_spec(payload.subrange(4, 8)) as u32,
                ),
                offset: field / 8 * 8,
                more: field % 2 == 1,
                data: payload.skip(8),
                now,
            },
        )
    } else {
        None
    }
}

/// The frame that an outer packet gave, as a model.
pub open spec fn frame_view(frame: Result<Option<Packet>, Error>) -> Result<
    Option<PacketModel>,
    Error,
> {
    match frame {
        Ok(Some(packet)) => Ok(Some(packet@)),
        Ok(None) => Ok(None),
        Err(error) => Err(error),
    }
}

/// Unwraps an outer IPv6 packet into the inner LAN frame, reassembling fragments as
/// needed. Returns `None` for unrelated or malformed packets.
pub fn decapsulate_packet(
    packet: Packet,
    dpdk: &Environment,
    tunnel: &Tunnel,
    reassembly: &mut Reassembly,
) -> (frame: Result<Option<Packet>, Error>)
    requires
        packet@.wf(),
        old(reassembly).wf(),
    ensures
        final(reassembly).wf(),
        final(reassembly).clock() == old(reassembly).clock(),
        frame matches Ok(Some(packet)) ==> packet@.wf() && packet@.single(),
        exists|now: u128|
            (final(reassembly)@, frame_view(frame)) == #[trigger] decapsulated(
                packet@,
                *dpdk,
                *tunnel,
                old(reassembly)@,
                now as int,
            ),
{
    let now = reassembly.now();
    decapsulate_packet_at(packet, dpdk, tunnel, reassembly, now)
}

/// Unwraps an outer IPv6 packet that arrives at time `now`.
pub fn decapsulate_packet_at(
    packet: Packet,
    dpdk: &Environment,
    tunnel: &Tunnel,
    reassembly: &mut Reassembly,
    now: u128,
) -> (frame: Result<Option<Packet>, Error>)
    requires
        packet@.wf(),
        old(reassembly).wf(),
    ensures
        final(reassembly).wf(),
        final(reassembly).clock() == old(reassembly).clock(),
        frame matches Ok(Some(packet)) ==> packet@.wf() && packet@.single(),
        (final(reassembly)@, frame_view(frame)) == decapsulated(
            packet@,
            *dpdk,
            *tunnel,
            old(reassembly)@,
            now as int,
        ),
{
    let mut packet = packet;
    let data: &[u8] = match packet.data() {
        Some(data) => data,
        None => {
            return Ok(None);
        },
    };
    if valid_outer_packet(data, tunnel).is_err() {
        return Ok(None);
    }
    let length: usize = be16(data[18], data[19]) as usize;
    let payload: &[u8] = vstd::slice::slice_subrange(data, 54, 54 + length);
    if data[20] == NEXT_ETHERIP {
        if etherip_payload(payload).is_none() {
            return Ok(None);
        }
        let padding: usize = data.len() - 54 - length;
        match packet.adjust(56) {
            Ok(_) => {},
            Err(error) => {
                return Err(error);
            },
        }
        match packet.trim_tail(padding) {
            Ok(_) => {},
            Err(error) => {
                return Err(error);
            },
        }
        return Ok(Some(packet));
    }
    if payload.len() < 8 || payload[0] != NEXT_ETHERIP || payload[1] != 0 {
        return Ok(None);
    }
    let field: u16 = be16(payload[2], payload[3]);
    if field / 2 % 4 != 0 {
        return Ok(None);
    }
    let key: FragmentKey = (array16_at(data, 22), array16_at(data, 38), be32_at(payload, 4));
    let whole = reassembly.insert_at(
        key,
        field as usize / 8 * 8,
        field % 2 == 1,
        vstd::slice::slice_subrange(payload, 8, payload.len()),
        now,
    );
    let etherip: Vec<u8> = match whole {
        Some(etherip) => etherip,
        None => {
            return Ok(None);
        },
    };
    match etherip_payload(&etherip) {
        Some(frame) => match dpdk.packet(frame) {
            Ok(packet) => Ok(Some(packet)),
            Err(error) => Err(error),
        },
        None => Ok(None),
    }
}

/// The packets that are sent, whether or not an error follows them.
pub open spec fn went_out(sending: Sending) -> Seq<PacketModel> {
    match sending {
        Ok(packets) => packets,
        Err(failure) => failure.1,
    }
}

/// What a call that was answered has done: it succeeded or failed as it had to, left the packets
/// that were there in their places, and put exactly those behind them that it had to.
pub proof fn answered_means(
    done: Result<(), Error>,
    expected: Sending,
    before: Seq<Packet>,
    after: Seq<Packet>,
)
    requires
        answered(done, expected, before, after),
    ensures
        ({
            let added = went_out(expected);
            &&& done is Ok <==> expected is Ok
            &&& done matches Err(error) ==> error == expected->Err_0.0
            &&& after.len() == before.len() + added.len()
            &&& forall|k: int| 0 <= k < before.len() ==> after[k] == #[trigger] before[k]
            &&& forall|k: int|
                0 <= k < added.len() ==> after[before.len() + k]@ == #[trigger] added[k]
        }),
{
    let added = went_out(expected);
    let rest = after.skip(before.len() as int);
    assert(models(rest).len() == rest.len());
    assert forall|k: int| 0 <= k < before.len() implies after[k] == #[trigger] before[k] by {
        assert(after.take(before.len() as int)[k] == after[k]);
    }
    assert forall|k: int| 0 <= k < added.len() implies after[before.len() + k]@
        == #[trigger] added[k] by {
        assert(models(rest)[k] == rest[k]@);
    }
}

/// Buffers are taken one after the other, until the pool has no more or one does not hold its
/// packet.
pub proof fn all_allocated_bytes(dpdk: Environment, packets: Seq<Seq<u8>>)
    ensures
        ({
            let size = dpdk.config.data_room_size as int;
            let made = went_out(all_allocated(dpdk, packets));
            let count = made.len() as int;
            &&& count <= dpdk.available
            &&& forall|i: int|
                0 <= i < count ==> {
                    &&& (#[trigger] made[i]).wf() && made[i].single()
                    &&& made[i].data() == packets[i]
                    &&& packets[i].len() == 0 || 128 + packets[i].len() <= size
                }
            &&& match all_allocated(dpdk, packets) {
                Ok(_) => count == packets.len(),
                Err((Error::MbufAllocation, _)) => count < packets.len() && count == dpdk.available,
                Err((Error::PacketLength, _)) => {
                    &&& count < packets.len() && count < dpdk.available
                    &&& packets[count].len() > 65_535
                },
                Err((Error::Tailroom, _)) => {
                    &&& count < packets.len() && count < dpdk.available
                    &&& 0 < packets[count].len() <= 65_535
                    &&& 128 + packets[count].len() > size
                },
                Err(_) => false,
            }
        }),
    decreases packets.len(),
{
    if packets.len() > 0 {
        let front = packets.drop_last();
        all_allocated_bytes(dpdk, front);
        let made = went_out(all_allocated(dpdk, packets));
        let before = went_out(all_allocated(dpdk, front));
        let size = dpdk.config.data_room_size as int;
        assert forall|i: int| 0 <= i < before.len() implies {
            &&& (#[trigger] made[i]).wf() && made[i].single()
            &&& made[i].data() == packets[i]
            &&& packets[i].len() == 0 || 128 + packets[i].len() <= size
        } by {
            assert(made[i] == before[i]);
            assert(front[i] == packets[i]);
        }
        if all_allocated(dpdk, front) is Ok {
            let left = dpdk::after_taking(dpdk, before.len() as int);
            dpdk::allocated_bytes(left, packets.last());
        } else {
            assert(front[before.len() as int] == packets[before.len() as int]);
        }
    }
}

/// What comes back from a call stands for itself: an index for its number, packets for their bytes
/// one by one, and an error for that error.
pub proof fn views_are_faithful(
    index: Option<usize>,
    packets: Result<Vec<Vec<u8>>, Error>,
    frame: Result<Option<Packet>, Error>,
)
    ensures
        index is None <==> index_view(index) is None,
        index matches Some(i) ==> index_view(index) == Some(i as int),
        packets matches Err(error) ==> fragments_view(packets) == Err::<Seq<Seq<u8>>, Error>(error),
        packets matches Ok(packets) ==> {
            let views = fragments_view(Ok(packets))->Ok_0;
            &&& fragments_view(Ok(packets)) is Ok
            &&& views.len() == packets@.len()
            &&& forall|i: int| 0 <= i < views.len() ==> #[trigger] views[i] == packets@[i]@
        },
        frame matches Err(error) ==> frame_view(frame) == Err::<Option<PacketModel>, Error>(error),
        frame matches Ok(None) ==> frame_view(frame) == Ok::<Option<PacketModel>, Error>(None),
        frame matches Ok(Some(packet)) ==> frame_view(frame) == Ok::<Option<PacketModel>, Error>(
            Some(packet@),
        ),
{
}

/// When a frame becomes no packets at all, and why.
pub proof fn encapsulation_refused(
    packet: PacketModel,
    dpdk: Environment,
    tunnel: Tunnel,
    mtu: int,
    mac: Seq<u8>,
    id: u32,
)
    ensures
        ({
            let length = packet.data().len();
            let result = encapsulated(packet, dpdk, tunnel, mtu, mac, id);
            let cut = length + 42 > mtu;
            let nothing = |error: Error| Err::<Seq<PacketModel>, (Error, Seq<PacketModel>)>(
                (error, Seq::empty()),
            );
            &&& packet.rest.len() > 0 ==> result == nothing(Error::MultiSegmentLanPacket)
            &&& packet.rest.len() == 0 ==> {
                &&& !cut && packet.first.offset < 56 ==> result == nothing(Error::Headroom)
                &&& !cut && packet.first.offset >= 56 ==> result is Ok
                &&& cut && length > 65_533 ==> result == nothing(Error::PayloadLimit)
                &&& cut && length <= 65_533 && mtu < 48 ==> result == nothing(Error::MtuTooSmall)
                &&& cut && length <= 65_533 && 48 <= mtu < 56 ==> result == nothing(
                    Error::Unfragmentable,
                )
            }
        }),
{
    assert(etherip_frame(packet.data()).len() == packet.data().len() + 2);
}

/// A segment that has grown has what followed its data as the end of its data.
pub proof fn grown_bytes(segment: SegmentModel, count: int)
    requires
        segment.wf(),
        0 <= count <= segment.tailroom(),
    ensures
        grown(segment, count).wf(),
        grown(segment, count).buffer == segment.buffer,
        grown(segment, count).data() == segment.buffer.subrange(
            segment.offset,
            segment.offset + segment.length + count,
        ),
{
}

} // verus!
