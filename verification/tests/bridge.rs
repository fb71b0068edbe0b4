use etherip::address::Ipv6Addr;
use etherip::bridge::Bridge;
use etherip::config::Tunnel;
use etherip::dpdk::{MempoolConfig, Packet};
use etherip::error::Error;
use etherip::etherip::{fragment_packets_with, ipv6_packet};
use etherip::ndp::icmpv6_checksum;

const SECOND: u128 = 1_000_000_000;
const NEAR: [u8; 16] = [1; 16];

fn tunnel(vlan: Option<u16>, remote: u8, mtu: usize) -> Tunnel {
    Tunnel {
        vlan,
        local_ipv6: Ipv6Addr::from(NEAR),
        remote_ipv6: Ipv6Addr::from([remote; 16]),
        next_hop_mac: [3; 6],
        mtu,
    }
}

/// The same tunnel as its far end has it.
fn other_end(tunnel: Tunnel, vlan: Option<u16>) -> Tunnel {
    Tunnel {
        vlan,
        local_ipv6: tunnel.remote_ipv6,
        remote_ipv6: tunnel.local_ipv6,
        ..tunnel
    }
}

fn bridge(tunnels: Vec<Tunnel>) -> Bridge {
    let local = tunnels[0].local_ipv6;
    Bridge::new(MempoolConfig::default(), tunnels, [4; 6], local)
}

fn buffer(bytes: &[u8]) -> Packet {
    Packet::new(128, bytes, 100)
}

fn frame(source: u8, length: usize) -> Vec<u8> {
    let mut frame = vec![0x77; length];
    frame[..6].copy_from_slice(&[2, 0, 0, 0, 0, 1]);
    frame[6..12].copy_from_slice(&[2, 0, 0, 0, 0, source]);
    frame[12..14].copy_from_slice(&[8, 0]);
    frame
}

fn tag(frame: &[u8], vlan: u16) -> Vec<u8> {
    let mut tagged = frame[..12].to_vec();
    tagged.extend_from_slice(&[0x81, 0]);
    tagged.extend_from_slice(&vlan.to_be_bytes());
    tagged.extend_from_slice(&frame[12..]);
    tagged
}

fn from_lan(bridge: &mut Bridge, bytes: &[u8], now: u128) -> Vec<Vec<u8>> {
    let mut sent = Vec::new();
    bridge.lan_packet_at(buffer(bytes), 1000, now, &mut sent).unwrap();
    sent.iter().map(|packet| packet.data().unwrap().to_vec()).collect()
}

fn from_wan(bridge: &mut Bridge, bytes: &[u8], now: u128) -> (Vec<Vec<u8>>, Vec<Vec<u8>>) {
    let mut wan = Vec::new();
    let mut lan = Vec::new();
    bridge.wan_packet_at(buffer(bytes), 1000, now, &mut wan, &mut lan).unwrap();
    let bytes = |packets: Vec<Packet>| {
        packets.iter().map(|packet| packet.data().unwrap().to_vec()).collect()
    };
    (bytes(wan), bytes(lan))
}

#[test]
fn a_frame_crosses_two_bridges() {
    let here = tunnel(None, 2, 1500);
    let mut near = bridge(vec![here]);
    let mut far = bridge(vec![other_end(here, None)]);
    let frame = frame(9, 1000);
    let sent = from_lan(&mut near, &frame, 0);
    assert_eq!(sent.len(), 1);
    assert_eq!(from_wan(&mut far, &sent[0], 0), (vec![], vec![frame]));
}

#[test]
fn vlans_are_joined_by_their_tunnel() {
    let here = [tunnel(Some(100), 2, 1500), tunnel(Some(200), 3, 1500)];
    let mut near = bridge(here.to_vec());
    let mut far = bridge(vec![other_end(here[1], Some(7))]);
    let plain = frame(9, 60);
    assert!(from_lan(&mut near, &plain, 0).is_empty());
    assert!(from_lan(&mut near, &tag(&plain, 300), 0).is_empty());
    let sent = from_lan(&mut near, &tag(&plain, 200), 0);
    assert_eq!(sent.len(), 1);
    assert_eq!(sent[0][38..54], [3; 16]);
    assert_eq!(from_wan(&mut far, &sent[0], 0), (vec![], vec![tag(&plain, 7)]));
}

#[test]
fn a_long_frame_crosses_in_fragments() {
    let here = tunnel(Some(5), 2, 1280);
    let mut near = bridge(vec![here]);
    let mut far = bridge(vec![other_end(here, None)]);
    let plain = frame(9, 1500);
    let sent = from_lan(&mut near, &tag(&plain, 5), 0);
    assert_eq!(sent.len(), 2);
    assert!(sent.iter().all(|packet| packet.len() <= 14 + 1280));
    assert_eq!(from_wan(&mut far, &sent[1], 0), (vec![], vec![]));
    assert_eq!(from_wan(&mut far, &sent[0], 0), (vec![], vec![plain.clone()]));
    let again = from_lan(&mut near, &tag(&plain, 5), 0);
    assert_eq!(sent[0][58..62], [0, 0, 0, 0]);
    assert_eq!(again[0][58..62], [0, 0, 0, 1]);
}

#[test]
fn fragments_that_are_late_are_lost() {
    let here = tunnel(None, 2, 1280);
    let mut far = bridge(vec![other_end(here, None)]);
    let sent = fragment_packets_with(&frame(9, 1500), &here, 1280, [4; 6], 0).unwrap();
    assert_eq!(from_wan(&mut far, &sent[0], 0).1.len(), 0);
    far.expire_at(61 * SECOND);
    assert_eq!(from_wan(&mut far, &sent[1], 61 * SECOND).1.len(), 0);
}

#[test]
fn a_frame_is_not_sent_back_where_it_came_from() {
    let here = [tunnel(Some(100), 2, 1500), tunnel(Some(200), 3, 1500)];
    let mut near = bridge(here.to_vec());
    let plain = frame(9, 60);
    let mut payload = vec![0x30, 0];
    payload.extend_from_slice(&plain);
    let outer = ipv6_packet(&other_end(here[0], None), [8; 6], 97, &payload);
    assert_eq!(from_wan(&mut near, &outer, SECOND).1, [tag(&plain, 100)]);
    assert!(from_lan(&mut near, &tag(&plain, 100), 300 * SECOND).is_empty());
    assert_eq!(from_lan(&mut near, &tag(&plain, 200), 300 * SECOND).len(), 1);
    assert_eq!(from_lan(&mut near, &tag(&frame(8, 60), 100), 300 * SECOND).len(), 1);
    assert_eq!(from_lan(&mut near, &tag(&plain, 100), 301 * SECOND).len(), 1);
    near.expire_at(700 * SECOND);
    assert_eq!(from_lan(&mut near, &tag(&plain, 100), SECOND).len(), 1);
}

fn too_big(remote: u8, mtu: u32) -> Vec<u8> {
    let mut packet = vec![0u8; 102];
    packet[12..15].copy_from_slice(&[0x86, 0xdd, 0x60]);
    packet[18..21].copy_from_slice(&[0, 48, 58]);
    packet[22..38].copy_from_slice(&[4; 16]);
    packet[38..54].copy_from_slice(&NEAR);
    packet[54] = 2;
    packet[58..62].copy_from_slice(&mtu.to_be_bytes());
    packet[62] = 0x60;
    packet[68] = 97;
    packet[70..86].copy_from_slice(&NEAR);
    packet[86..102].copy_from_slice(&[remote; 16]);
    let checksum = icmpv6_checksum(&[4; 16], &NEAR, &packet[54..]);
    packet[56..58].copy_from_slice(&checksum.to_be_bytes());
    packet
}

#[test]
fn a_path_only_becomes_narrower() {
    let here = [tunnel(Some(1), 2, 1500), tunnel(Some(2), 3, 1500)];
    let mut near = bridge(here.to_vec());
    let plain = frame(9, 1458);
    let mut count = |message: &[u8], vlan: u16| {
        assert_eq!(from_wan(&mut near, message, 0), (vec![], vec![]));
        from_lan(&mut near, &tag(&plain, vlan), 0).len()
    };
    assert_eq!(count(&too_big(9, 1400), 1), 1);
    assert_eq!(count(&too_big(2, 1600), 1), 1);
    assert_eq!(count(&too_big(2, 1499), 1), 2);
    assert_eq!(count(&too_big(2, 1500), 1), 2);
    assert_eq!(count(&too_big(2, 1), 1), 2);
    assert_eq!(count(&too_big(2, 1), 2), 1);
    let small = frame(9, 1238);
    assert_eq!(from_lan(&mut near, &tag(&small, 1), 0).len(), 1);
    let larger = frame(9, 1239);
    assert_eq!(from_lan(&mut near, &tag(&larger, 1), 0).len(), 2);
}

#[test]
fn solicitations_are_answered_whoever_asks() {
    let mut near = bridge(vec![tunnel(None, 2, 1500)]);
    for source in [[2; 16], [5; 16]] {
        let mut request = vec![0u8; 78];
        request[6..12].copy_from_slice(&[2, 0, 0, 0, 0, 9]);
        request[12..15].copy_from_slice(&[0x86, 0xdd, 0x60]);
        request[18..22].copy_from_slice(&[0, 24, 58, 255]);
        request[22..38].copy_from_slice(&source);
        request[38..54].copy_from_slice(&NEAR);
        request[54] = 135;
        request[62..78].copy_from_slice(&NEAR);
        let checksum = icmpv6_checksum(&source, &NEAR, &request[54..]);
        request[56..58].copy_from_slice(&checksum.to_be_bytes());
        let (wan, lan) = from_wan(&mut near, &request, 0);
        assert_eq!((wan.len(), lan.len()), (1, 0));
        assert_eq!(wan[0][..12], [2, 0, 0, 0, 0, 9, 4, 4, 4, 4, 4, 4]);
        assert_eq!(icmpv6_checksum(&NEAR, &source, &wan[0][54..]), 0);
    }
}

#[test]
fn what_is_in_several_pieces_or_from_elsewhere_is_dropped() {
    let here = tunnel(None, 2, 1500);
    let mut near = bridge(vec![here]);
    let mut sent = Vec::new();
    let mut delivered = Vec::new();
    let mut chained = buffer(&frame(9, 60));
    chained.chain(0, &[1], 0);
    assert_eq!(near.lan_packet(chained, 1000, &mut sent), Ok(()));
    let mut chained = buffer(&frame(9, 60));
    chained.chain(0, &[1], 0);
    assert_eq!(near.wan_packet(chained, 1000, &mut sent, &mut delivered), Ok(()));
    let outer = ipv6_packet(&here, [8; 6], 97, &[0x30, 0, 1]);
    assert_eq!(near.wan_packet(buffer(&outer), 1000, &mut sent, &mut delivered), Ok(()));
    near.expire();
    assert!(sent.is_empty() && delivered.is_empty());
}

#[test]
fn a_short_frame_has_no_place_for_a_tag() {
    let here = tunnel(Some(100), 2, 1500);
    let mut near = bridge(vec![here]);
    let outer = ipv6_packet(&other_end(here, None), [8; 6], 97, &[0x30, 0, 1]);
    let mut sent = Vec::new();
    let mut delivered = Vec::new();
    let done = near.wan_packet_at(buffer(&outer), 1000, 0, &mut sent, &mut delivered);
    assert_eq!(done, Err(Error::ShortFrame));
    let tight = Packet::new(0, &outer, 3);
    let done = near.wan_packet_at(tight, 1000, 0, &mut sent, &mut delivered);
    assert_eq!(done, Err(Error::Tailroom));
    assert!(sent.is_empty() && delivered.is_empty());
}

#[test]
fn what_does_not_fit_is_an_error() {
    let here = tunnel(None, 2, 1500);
    let mut near = bridge(vec![here]);
    let mut sent = Vec::new();
    let tight = Packet::new(10, &frame(9, 60), 0);
    assert_eq!(near.lan_packet_at(tight, 1000, 0, &mut sent), Err(Error::Headroom));
    assert!(sent.is_empty());
}

#[test]
fn an_exhausted_pool_is_an_error_only_where_a_buffer_is_needed() {
    let here = tunnel(None, 2, 1280);
    let mut near = bridge(vec![here]);
    let mut sent = Vec::new();
    assert_eq!(near.lan_packet_at(buffer(&frame(9, 60)), 0, 0, &mut sent), Ok(()));
    assert_eq!(sent.len(), 1);
    let done = near.lan_packet_at(buffer(&frame(9, 1500)), 1, 0, &mut sent);
    assert_eq!(done, Err(Error::MbufAllocation));
    assert_eq!(sent.len(), 2);
    let mut again = Vec::new();
    near.lan_packet_at(buffer(&frame(9, 1500)), 2, 0, &mut again).unwrap();
    assert_eq!(again[0].data().unwrap()[58..62], [0, 0, 0, 1]);
}

#[test]
fn padding_of_the_link_does_not_reach_the_lan() {
    let here = tunnel(Some(5), 2, 1500);
    let mut near = bridge(vec![here]);
    let mut far = bridge(vec![other_end(here, Some(6))]);
    let plain = frame(9, 14);
    let mut sent = from_lan(&mut near, &tag(&plain, 5), 0);
    sent[0].extend_from_slice(&[0; 12]);
    assert_eq!(from_wan(&mut far, &sent[0], 0), (vec![], vec![tag(&plain, 6)]));
    assert_eq!(far.path_mtu(0), Some(1500));
    assert_eq!(far.path_mtu(1), None);
}

#[test]
fn other_events_between_fragments_change_nothing() {
    let here = tunnel(None, 2, 1280);
    let mut far = bridge(vec![other_end(here, None)]);
    let first = fragment_packets_with(&frame(9, 1500), &here, 1280, [4; 6], 1).unwrap();
    let second = fragment_packets_with(&frame(8, 1600), &here, 1280, [4; 6], 2).unwrap();
    let none: (Vec<Vec<u8>>, Vec<Vec<u8>>) = (vec![], vec![]);
    assert_eq!(from_wan(&mut far, &first[1], 0), none);
    assert_eq!(from_wan(&mut far, &second[0], SECOND), none);
    assert_eq!(from_lan(&mut far, &frame(7, 60), 2 * SECOND).len(), 1);
    far.expire_at(59 * SECOND);
    assert_eq!(from_wan(&mut far, &first[0], 59 * SECOND).1, [frame(9, 1500)]);
    assert_eq!(from_wan(&mut far, &second[1], 60 * SECOND).1, [frame(8, 1600)]);
}

#[test]
fn a_source_counts_from_when_it_was_last_heard() {
    let here = tunnel(None, 2, 1500);
    let mut near = bridge(vec![here]);
    let outer = |source: u8| {
        let mut payload = vec![0x30, 0];
        payload.extend_from_slice(&frame(source, 60));
        ipv6_packet(&other_end(here, None), [8; 6], 97, &payload)
    };
    from_wan(&mut near, &outer(9), SECOND);
    from_wan(&mut near, &outer(8), 100 * SECOND);
    near.expire_at(250 * SECOND);
    assert!(from_lan(&mut near, &frame(9, 60), 300 * SECOND).is_empty());
    from_wan(&mut near, &outer(9), 300 * SECOND);
    near.expire_at(350 * SECOND);
    assert!(from_lan(&mut near, &frame(9, 60), 599 * SECOND).is_empty());
    assert!(from_lan(&mut near, &frame(8, 60), 399 * SECOND).is_empty());
    assert_eq!(from_lan(&mut near, &frame(8, 60), 400 * SECOND).len(), 1);
    assert_eq!(from_lan(&mut near, &frame(9, 60), 600 * SECOND).len(), 1);
}
