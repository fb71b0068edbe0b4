//! What the bridge does with each kind of traffic, told by the bytes of the packets.

use crate::bridge;
use crate::bridge::{BridgeModel, Event};
use crate::config::Tunnel;
use crate::dpdk;
use crate::dpdk::PacketModel;
use crate::error::Error;
use crate::etherip;
use crate::mac_table;
use crate::ndp;
use crate::reassembly;
use crate::wire;
use vstd::prelude::*;

verus! {

/// Whether nothing but the identification of the next fragments differs between two bridges.
pub open spec fn same_but_id(before: BridgeModel, after: BridgeModel) -> bool {
    after == (BridgeModel { frag_id: after.frag_id, ..before })
}

/// The frame that a packet from the LAN carries into a tunnel: without bytes 12 to 16 where the
/// tunnel has a VLAN.
pub open spec fn inner_frame(packet: PacketModel, tunnel: Tunnel) -> Seq<u8> {
    let frame = packet.data();
    if tunnel.vlan is Some {
        frame.subrange(0, 12) + frame.subrange(16, frame.len() as int)
    } else {
        frame
    }
}

/// A frame from the LAN in more than one segment, or for no tunnel, or whose source is behind its
/// tunnel, is dropped, and changes nothing.
pub proof fn lan_frames_dropped(bridge: BridgeModel, packet: PacketModel, available: usize, now: int)
    requires
        bridge.wf(),
        ({
            let found = etherip::lan_tunnel(packet.data(), bridge.tunnels);
            ||| packet.rest.len() > 0
            ||| found is None
            ||| mac_table::reflected(bridge.tables[found->0], packet.data(), now)
        }),
    ensures
        bridge.lan_outcome(packet, available, now) == (
            bridge,
            Ok::<Seq<PacketModel>, (Error, Seq<PacketModel>)>(Seq::empty()),
        ),
{
}

/// Every other frame from the LAN goes into its tunnel, in one packet or in fragments under the
/// identification that is next, and from then on the following one is next if it went in
/// fragments; nothing else changes.
pub proof fn lan_frames_sent(
    bridge: BridgeModel,
    packet: PacketModel,
    i: int,
    available: usize,
    now: int,
)
    requires
        bridge.wf(),
        packet.wf(),
        packet.rest.len() == 0,
        etherip::lan_tunnel(packet.data(), bridge.tunnels) == Some(i),
        !mac_table::reflected(bridge.tables[i], packet.data(), now),
        bridge.path_mtu[i] <= 65_575,
    ensures
        ({
            let (after, outcome) = bridge.lan_outcome(packet, available, now);
            let tunnel = bridge.tunnels[i];
            let mac = bridge.wan_mac;
            let mtu = bridge.path_mtu[i];
            let inner = inner_frame(packet, tunnel);
            let cut = inner.len() + 42 > mtu;
            &&& same_but_id(bridge, after)
            &&& after.frag_id == if cut && mtu >= 56 && inner.len() <= 65_533 {
                (bridge.frag_id + 1) % 0x1_0000_0000
            } else {
                bridge.frag_id as int
            }
            &&& outcome matches Ok(sent) ==> sent.len() > 0 && forall|k: int|
                0 <= k < sent.len() ==> wire::heads(
                    (#[trigger] sent[k]).data(),
                    tunnel,
                    mac,
                    if cut {
                        44
                    } else {
                        97
                    },
                )
            &&& outcome matches Ok(sent) ==> !cut ==> {
                &&& sent.len() == 1
                &&& sent[0].data().len() == 56 + inner.len()
                &&& sent[0].data()[54] == 0x30 && sent[0].data()[55] == 0
                &&& sent[0].data().subrange(56, (56 + inner.len()) as int) == inner
            }
            &&& outcome matches Ok(sent) ==> cut ==> {
                let full = sent[0].data().len() - 62;
                &&& forall|k: int|
                    0 <= k < sent.len() ==> wire::is_fragment_of(
                        (#[trigger] sent[k]).data(),
                        tunnel,
                        mac,
                        inner,
                        k * full,
                        bridge.frag_id,
                    )
                &&& (sent.len() - 1) * full + sent.last().data().len() - 62 == inner.len() + 2
            }
            &&& outcome is Err ==> {
                ||| !cut && packet.first.offset < 56 && outcome == etherip::failed(Error::Headroom)
                ||| cut && inner.len() > 65_533 && outcome == etherip::failed(Error::PayloadLimit)
                ||| cut && mtu < 48 && outcome == etherip::failed(Error::MtuTooSmall)
                ||| cut && 48 <= mtu < 56 && outcome == etherip::failed(Error::Unfragmentable)
                ||| cut && mtu >= 56 && inner.len() <= 65_533
            }
            &&& !cut && packet.first.offset >= 56 ==> outcome is Ok
        }),
{
    let tunnel = bridge.tunnels[i];
    let mac = bridge.wan_mac;
    let mtu = bridge.path_mtu[i] as int;
    let inner = inner_frame(packet, tunnel);
    wire::lan_tunnel_choice(packet.data(), bridge.tunnels);
    wire::stripped_bytes(packet);
    let prepared = bridge.prepared(packet, i)->Ok_0;
    assert(bridge.prepared(packet, i) is Ok);
    assert(prepared.data() == inner);
    assert(prepared.first.offset == packet.first.offset);
    wire::fragments_refused(inner, tunnel, mtu, mac, bridge.frag_id);
    let dpdk = bridge.dpdk(available);
    let outcome = etherip::encapsulated(prepared, dpdk, tunnel, mtu, mac, bridge.frag_id);
    assert(bridge.lan_outcome(packet, available, now).1 == outcome);
    if let Ok(sent) = outcome {
        wire::sent_packets_bytes(prepared, dpdk, tunnel, mtu, mac, bridge.frag_id);
        if inner.len() + 42 <= mtu {
            let data = sent[0].data();
            assert(wire::carried(inner, 0) == 0x30);
            assert(wire::carried(inner, 1) == 0);
            assert forall|k: int| 0 <= k < inner.len() implies data[56 + k] == #[trigger] inner[k] by {
                assert(data[54 + (k + 2)] == wire::carried(inner, k + 2));
            }
            assert(data.subrange(56, (56 + inner.len()) as int) =~= inner);
        } else {
            assert forall|k: int| 0 <= k < sent.len() implies wire::heads(
                (#[trigger] sent[k]).data(),
                tunnel,
                mac,
                44,
            ) by {
                assert(wire::is_fragment_of(
                    sent[k].data(),
                    tunnel,
                    mac,
                    inner,
                    k * (sent[0].data().len() - 62),
                    bridge.frag_id,
                ));
            }
        }
    }
}

/// A packet from the WAN that asks for no address, comes from the far end of no tunnel and tells
/// no MTU changes nothing and sends nothing; nor does one in more than one segment.
pub proof fn other_packets_dropped(
    bridge: BridgeModel,
    packet: PacketModel,
    available: usize,
    now: int,
)
    requires
        bridge.wf(),
        ({
            let data = packet.data();
            ||| packet.rest.len() > 0
            ||| {
                &&& !ndp::solicits(data, bridge.local_ipv6)
                &&& etherip::wan_tunnel(data, bridge.tunnels) is None
                &&& !ndp::too_big(data, bridge.local_ipv6)
            }
        }),
    ensures
        bridge.wan_outcome(packet, available, now) == (
            bridge,
            Ok::<(Seq<PacketModel>, Seq<PacketModel>), Error>((Seq::empty(), Seq::empty())),
        ),
{
}

/// After a Packet Too Big message that tells `told` for the far end of a tunnel, the path of the
/// first such tunnel is exactly as wide as it was or as told, whichever is less, where less than
/// 1280 counts as 1280. Nothing else changes, and nothing is sent.
pub proof fn told_mtus_are_heeded(
    bridge: BridgeModel,
    packet: PacketModel,
    available: usize,
    now: int,
)
    requires
        bridge.wf(),
        packet.rest.len() == 0,
        ndp::too_big(packet.data(), bridge.local_ipv6),
        etherip::wan_tunnel(packet.data(), bridge.tunnels) is None,
    ensures
        ({
            let data = packet.data();
            let told = ((data[58] * 256 + data[59]) * 256 + data[60]) * 256 + data[61];
            let (after, outcome) = bridge.wan_outcome(packet, available, now);
            let quoted = data.subrange(86, 102);
            let first = |i: int|
                0 <= i < bridge.tunnels.len() && bridge.tunnels[i].remote_ipv6.octets@ == quoted
                    && forall|k: int|
                    0 <= k < i ==> (#[trigger] bridge.tunnels[k]).remote_ipv6.octets@ != quoted;
            &&& after == (BridgeModel { path_mtu: after.path_mtu, ..bridge })
            &&& outcome == Ok::<(Seq<PacketModel>, Seq<PacketModel>), Error>(
                (Seq::empty(), Seq::empty()),
            )
            &&& after.path_mtu.len() == bridge.path_mtu.len()
            &&& forall|i: int|
                0 <= i < bridge.path_mtu.len() ==> #[trigger] after.path_mtu[i] == if first(i) {
                    vstd::math::min(bridge.path_mtu[i] as int, vstd::math::max(told, 1280))
                } else {
                    bridge.path_mtu[i] as int
                }
        }),
{
    let data = packet.data();
    wire::too_big_bytes(data, bridge.local_ipv6);
    assert(!ndp::solicits(data, bridge.local_ipv6)) by {
        wire::solicitation_bytes(data, bridge.local_ipv6);
    }
    wire::remote_tunnel_choice(data.subrange(86, 102), bridge.tunnels);
    let told = ((data[58] * 256 + data[59]) * 256 + data[60]) * 256 + data[61];
    if let Some(i) = etherip::remote_tunnel(data.subrange(86, 102), bridge.tunnels) {
        BridgeModel::lowered_exactly(bridge.path_mtu[i], told);
    }
}

/// What a packet from the far end of tunnel `i` changes: the packets that wait, and the table of
/// that tunnel, which learns the source of a frame that comes out. The frame goes into the LAN,
/// with a tag where the tunnel has a VLAN; nothing goes into the WAN.
pub proof fn tunnel_frames_delivered(
    bridge: BridgeModel,
    packet: PacketModel,
    i: int,
    available: usize,
    now: int,
)
    requires
        bridge.wf(),
        packet.wf(),
        packet.rest.len() == 0,
        !ndp::solicits(packet.data(), bridge.local_ipv6),
        etherip::wan_tunnel(packet.data(), bridge.tunnels) == Some(i),
    ensures
        ({
            let (after, outcome) = bridge.wan_outcome(packet, available, now);
            let tunnel = bridge.tunnels[i];
            let pool = dpdk::Environment { config: bridge.config, available };
            let (waiting, result) = etherip::decapsulated(
                packet,
                pool,
                tunnel,
                bridge.packets,
                now,
            );
            &&& after == (BridgeModel { packets: waiting, tables: after.tables, ..bridge })
            &&& after.tables.len() == bridge.tables.len()
            &&& forall|k: int|
                0 <= k < bridge.tables.len() && k != i ==> #[trigger] after.tables[k]
                    == bridge.tables[k]
            &&& match result {
                Ok(Some(frame)) => {
                    let room = frame.first.buffer.len() - frame.first.offset - frame.first.length;
                    let data = frame.data();
                    &&& data.len() >= 12 && data[6] % 2 == 0 ==> after.tables[i].remote
                        == bridge.tables[i].remote.insert(data.subrange(6, 12), now)
                    &&& data.len() < 12 || data[6] % 2 == 1 ==> after.tables[i].remote
                        == bridge.tables[i].remote
                    &&& after.tables[i].next_expiry == bridge.tables[i].next_expiry
                    &&& match outcome {
                        Ok((wan, lan)) => {
                            &&& wan.len() == 0
                            &&& lan.len() == 1
                            &&& tunnel.vlan is None ==> lan[0] == frame
                            &&& tunnel.vlan matches Some(vlan) ==> {
                                &&& lan[0].data().len() == data.len() + 4
                                &&& lan[0].data().subrange(0, 12) == data.subrange(0, 12)
                                &&& lan[0].data()[12] == 0x81 && lan[0].data()[13] == 0
                                &&& lan[0].data()[14] * 256 + lan[0].data()[15] == vlan
                                &&& lan[0].data().subrange(16, (data.len() + 4) as int) == data.subrange(
                                    12,
                                    data.len() as int,
                                )
                            }
                        },
                        Err(Error::ShortFrame) => {
                            &&& tunnel.vlan is Some && data.len() < 12 && room >= 4
                        },
                        Err(Error::Tailroom) => tunnel.vlan is Some && room < 4,
                        Err(_) => false,
                    }
                },
                Ok(None) => after.tables == bridge.tables && outcome == Ok::<
                    (Seq<PacketModel>, Seq<PacketModel>),
                    Error,
                >((Seq::empty(), Seq::empty())),
                Err(error) => after.tables == bridge.tables && outcome == Err::<
                    (Seq<PacketModel>, Seq<PacketModel>),
                    Error,
                >(error),
            }
        }),
{
    let tunnel = bridge.tunnels[i];
    let pool = dpdk::Environment { config: bridge.config, available };
    wire::wan_tunnel_choice(packet.data(), bridge.tunnels);
    wire::remote_tunnel_choice(packet.data().subrange(22, 38), bridge.tunnels);
    let result = etherip::decapsulated(packet, pool, tunnel, bridge.packets, now).1;
    assert(bridge.wan_outcome(packet, available, now) == bridge.tunnel_outcome(
        packet,
        i,
        available,
        now,
    ));
    if let Ok(Some(frame)) = result {
        lemma_out_of_tunnel(packet, pool, tunnel, bridge.packets, now);
        mac_table::learning_bytes(bridge.tables[i], frame.data(), now);
        if let Some(vlan) = tunnel.vlan {
            if frame.data().len() >= 12 {
                wire::vlan_added_bytes(frame, vlan);
            }
        }
    }
}

/// A frame that comes out of a tunnel lies in one segment.
proof fn lemma_out_of_tunnel(
    packet: PacketModel,
    pool: dpdk::Environment,
    tunnel: Tunnel,
    packets: Map<reassembly::Flow, reassembly::Pending>,
    now: int,
)
    requires
        packet.wf(),
        packet.rest.len() == 0,
        etherip::decapsulated(packet, pool, tunnel, packets, now).1 matches Ok(Some(_)),
    ensures
        etherip::decapsulated(packet, pool, tunnel, packets, now).1 matches Ok(Some(frame))
            && frame.wf() && frame.single(),
{
    wire::outer_bytes(packet.data(), tunnel);
    if packet.data()[20] == 44 {
        wire::fragment_packet_bytes(packet, pool, tunnel, packets, now);
        let held = wire::fragment_held(packet.data(), now);
        let whole = reassembly::arrival(
            packets,
            held.key,
            held.offset,
            held.more,
            held.data,
            now,
        ).1;
        if let Some(payload) = whole {
            dpdk::allocated_bytes(pool, payload.subrange(2, payload.len() as int));
        }
    } else {
        wire::whole_packet_bytes(packet, pool, tunnel, packets, now);
    }
}

/// The source that is learned from tunnel `i` is bytes 6 to 12 of a frame that comes out of it, if
/// they are the address of one host.
pub proof fn heard_bytes(bridge: BridgeModel, event: Event, i: int)
    requires
        bridge.wf(),
    ensures
        ({
            let heard = bridge.hears(event, i);
            match event {
                Event::Wan(input) => {
                    let data = input.packet.data();
                    let pool = dpdk::Environment {
                        config: bridge.config,
                        available: input.available,
                    };
                    let result = etherip::decapsulated(
                        input.packet,
                        pool,
                        bridge.tunnels[i],
                        bridge.packets,
                        input.now,
                    ).1;
                    let taken = input.packet.rest.len() == 0 && !ndp::solicits(
                        data,
                        bridge.local_ipv6,
                    ) && etherip::wan_tunnel(data, bridge.tunnels) == Some(i);
                    &&& taken ==> (result matches Ok(Some(frame)) ==> frame.data().len() >= 12 ==>
                        frame.data()[6] % 2 == 0 ==> heard == Some(frame.data().subrange(6, 12)))
                    &&& heard matches Some(source) ==> {
                        &&& taken
                        &&& result matches Ok(Some(frame)) && frame.data().len() >= 12
                            && frame.data()[6] % 2 == 0 && source == frame.data().subrange(6, 12)
                    }
                },
                _ => heard is None,
            }
        }),
{
    if let Event::Wan(input) = event {
        let pool = bridge.dpdk(input.available);
        let result = etherip::decapsulated(
            input.packet,
            pool,
            bridge.tunnels[i],
            bridge.packets,
            input.now,
        ).1;
        if let Ok(Some(frame)) = result {
            if frame.data().len() >= 12 {
                assert(frame.data().subrange(6, 12)[0] == frame.data()[6]);
            }
        }
    }
}

/// A frame from the LAN with the bytes 6 to 12 of a frame that came out of its tunnel less than
/// five minutes before is not sent back into the tunnel.
pub proof fn heard_frames_stay_out(
    bridge: BridgeModel,
    heard: PacketModel,
    frame: PacketModel,
    i: int,
    then: int,
    now: int,
    there: usize,
    here: usize,
)
    requires
        bridge.wf(),
        heard.wf(),
        heard.rest.len() == 0,
        !ndp::solicits(heard.data(), bridge.local_ipv6),
        etherip::wan_tunnel(heard.data(), bridge.tunnels) == Some(i),
        then <= now < then + 300_000_000_000,
        frame.data().len() >= 12,
        frame.data()[6] % 2 == 0,
        etherip::decapsulated(
            heard,
            dpdk::Environment { config: bridge.config, available: there },
            bridge.tunnels[i],
            bridge.packets,
            then,
        ).1 matches Ok(Some(inner)) && inner.data().len() >= 12 && inner.data().subrange(6, 12)
            == frame.data().subrange(6, 12),
        etherip::lan_tunnel(frame.data(), bridge.tunnels) == Some(i),
    ensures
        ({
            let after = bridge.wan_outcome(heard, there, then).0;
            after.lan_outcome(frame, here, now) == (
                after,
                Ok::<Seq<PacketModel>, (Error, Seq<PacketModel>)>(Seq::empty()),
            )
        }),
{
    let after = bridge.wan_outcome(heard, there, then).0;
    tunnel_frames_delivered(bridge, heard, i, there, then);
    let pool = dpdk::Environment { config: bridge.config, available: there };
    let inner = etherip::decapsulated(heard, pool, bridge.tunnels[i], bridge.packets, then).1->Ok_0->0;
    assert(inner.data().subrange(6, 12)[0] == inner.data()[6]);
    assert(frame.data().subrange(6, 12)[0] == frame.data()[6]);
    mac_table::reflection_bytes(after.tables[i], frame.data(), now);
    wire::lan_tunnel_choice(frame.data(), bridge.tunnels);
    lan_frames_dropped(after, frame, here, now);
}

/// Every five seconds, and not before, old addresses and fragments are looked for: all tables age,
/// and the packets are dropped of which nothing came for a minute.
pub proof fn aging_of_the_bridge(bridge: BridgeModel, now: int)
    ensures
        now < bridge.next_expiry ==> bridge.aged(now) == bridge,
        now >= bridge.next_expiry ==> {
            let after = bridge.aged(now);
            &&& after == (BridgeModel {
                tables: after.tables,
                packets: after.packets,
                next_expiry: now + 5_000_000_000,
                ..bridge
            })
            &&& after.tables.len() == bridge.tables.len()
            &&& forall|i: int|
                0 <= i < bridge.tables.len() ==> #[trigger] after.tables[i] == mac_table::aged(
                    bridge.tables[i],
                    now,
                )
            &&& forall|key: reassembly::Flow| #[trigger]
                after.packets.contains_key(key) <==> bridge.packets.contains_key(key) && now
                    - bridge.packets[key].updated < 60_000_000_000
            &&& forall|key: reassembly::Flow| #[trigger]
                after.packets.contains_key(key) ==> after.packets[key] == bridge.packets[key]
        },
{
}

/// A bridge starts with the MTUs of its tunnels.
pub proof fn first_mtus(tunnels: Seq<Tunnel>)
    ensures
        bridge::initial_mtus(tunnels).len() == tunnels.len(),
        forall|i: int|
            0 <= i < tunnels.len() && tunnels[i].mtu < 0x1_0000_0000 ==> (
            #[trigger] bridge::initial_mtus(tunnels)[i]) == tunnels[i].mtu,
{
}

/// A frame from the LAN that has to be cut, and can be, goes out fragment by fragment for as long as
/// the pool has buffers that hold them.
pub proof fn lan_fragments_sent(
    bridge: BridgeModel,
    packet: PacketModel,
    i: int,
    available: usize,
    now: int,
)
    requires
        bridge.wf(),
        packet.wf(),
        packet.rest.len() == 0,
        etherip::lan_tunnel(packet.data(), bridge.tunnels) == Some(i),
        !mac_table::reflected(bridge.tables[i], packet.data(), now),
        56 <= bridge.path_mtu[i] < inner_frame(packet, bridge.tunnels[i]).len() + 42,
        inner_frame(packet, bridge.tunnels[i]).len() <= 65_533,
    ensures
        ({
            let fragments = etherip::fragments_spec(
                inner_frame(packet, bridge.tunnels[i]),
                bridge.tunnels[i],
                bridge.path_mtu[i] as int,
                bridge.wan_mac,
                bridge.frag_id,
            )->Ok_0;
            let outcome = bridge.lan_outcome(packet, available, now).1;
            let sent = etherip::went_out(outcome);
            let size = bridge.config.data_room_size;
            &&& sent.len() <= fragments.len()
            &&& forall|k: int| 0 <= k < sent.len() ==> (#[trigger] sent[k]).data() == fragments[k]
            &&& outcome is Ok <==> sent.len() == fragments.len()
            &&& outcome is Err ==> {
                ||| sent.len() == available && outcome->Err_0.0 == Error::MbufAllocation
                ||| sent.len() < available && 128 + fragments[sent.len() as int].len() > size
                    && outcome->Err_0.0 == (if fragments[sent.len() as int].len() > 65_535 {
                    Error::PacketLength
                } else {
                    Error::Tailroom
                })
            }
        }),
{
    let tunnel = bridge.tunnels[i];
    let mtu = bridge.path_mtu[i] as int;
    wire::lan_tunnel_choice(packet.data(), bridge.tunnels);
    wire::stripped_bytes(packet);
    let prepared = bridge.prepared(packet, i)->Ok_0;
    let inner = inner_frame(packet, tunnel);
    assert(prepared.data() == inner);
    wire::fragments_refused(inner, tunnel, mtu, bridge.wan_mac, bridge.frag_id);
    let fragments = etherip::fragments_spec(
        inner,
        tunnel,
        mtu,
        bridge.wan_mac,
        bridge.frag_id,
    )->Ok_0;
    etherip::all_allocated_bytes(bridge.dpdk(available), fragments);
}

/// A Neighbor Solicitation for the address of the bridge changes nothing and is answered in a fresh
/// buffer, or fails as that fails.
pub proof fn solicitations_need_a_buffer(
    bridge: BridgeModel,
    packet: PacketModel,
    available: usize,
    now: int,
)
    requires
        bridge.wf(),
        packet.rest.len() == 0,
        ndp::solicits(packet.data(), bridge.local_ipv6),
    ensures
        ({
            let (after, outcome) = bridge.wan_outcome(packet, available, now);
            let reply = ndp::advertisement(packet.data(), bridge.local_ipv6, bridge.wan_mac);
            &&& after == bridge
            &&& match outcome {
                Ok((wan, lan)) => {
                    &&& available > 0 && bridge.config.data_room_size >= 214
                    &&& lan.len() == 0
                    &&& wan.len() == 1
                    &&& wan[0].data() == reply
                },
                Err(Error::MbufAllocation) => available == 0,
                Err(Error::Tailroom) => available > 0 && bridge.config.data_room_size < 214,
                Err(_) => false,
            }
        }),
{
    let reply = ndp::advertisement(packet.data(), bridge.local_ipv6, bridge.wan_mac);
    wire::advertisement_bytes(packet.data(), bridge.local_ipv6, bridge.wan_mac);
    dpdk::allocated_bytes(bridge.dpdk(available), reply);
}

} // verus!
