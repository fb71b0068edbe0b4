use etherip::address::Ipv6Addr;
use etherip::clock::Clock;
use etherip::config::Tunnel;
use etherip::dpdk::{Environment, MempoolConfig, Packet};
use etherip::error::Error;
use etherip::etherip::{
    decapsulate_packet, decapsulate_packet_at, encapsulate_packet, encapsulate_packet_with,
    fragment_packets, fragment_packets_with, ipv6_packet, tunnel_for_remote,
    tunnel_index_for_wan, valid_outer_packet, OuterError,
};
use etherip::mac_table::MacTable;
use etherip::ndp::{icmpv6_checksum, icmpv6_packet_too_big, ndp_advertisement};
use etherip::reassembly::Reassembly;
use std::sync::atomic::{AtomicU32, Ordering};

const SECOND: u128 = 1_000_000_000;

fn near() -> Tunnel {
    Tunnel {
        vlan: None,
        local_ipv6: Ipv6Addr::from([1; 16]),
        remote_ipv6: Ipv6Addr::from([2; 16]),
        next_hop_mac: [3; 6],
        mtu: 1500,
    }
}

fn far() -> Tunnel {
    Tunnel {
        local_ipv6: Ipv6Addr::from([2; 16]),
        remote_ipv6: Ipv6Addr::from([1; 16]),
        ..near()
    }
}

fn environment() -> Environment {
    Environment { config: MempoolConfig::default(), available: 1000 }
}

#[test]
fn an_outer_packet_is_laid_out_byte_by_byte() {
    let packet = ipv6_packet(&near(), [4; 6], 97, &[0x30, 0, 0xaa]);
    let mut expected = vec![3; 6];
    expected.extend_from_slice(&[4; 6]);
    expected.extend_from_slice(&[0x86, 0xdd, 0x60, 0, 0, 0, 0, 3, 97, 64]);
    expected.extend_from_slice(&[1; 16]);
    expected.extend_from_slice(&[2; 16]);
    expected.extend_from_slice(&[0x30, 0, 0xaa]);
    assert_eq!(packet, expected);
}

#[test]
fn every_mistake_in_an_outer_packet_is_named() {
    let good = ipv6_packet(&near(), [4; 6], 97, &[0x30, 0, 1]);
    assert_eq!(valid_outer_packet(&good, &far()), Ok(()));
    assert_eq!(valid_outer_packet(&good[..53], &far()), Err(OuterError::Short));
    assert_eq!(valid_outer_packet(&good[..56], &far()), Err(OuterError::Length));
    for (place, value, error) in [
        (13, 0, OuterError::EtherType),
        (14, 0x40, OuterError::Version),
        (20, 58, OuterError::Protocol),
        (22, 9, OuterError::Source),
        (53, 9, OuterError::Destination),
    ] {
        let mut packet = good.clone();
        packet[place] = value;
        assert_eq!(valid_outer_packet(&packet, &far()), Err(error));
    }
}

#[test]
fn a_frame_within_the_mtu_goes_and_comes_in_one_packet() {
    let frame = vec![0x5a; 1458];
    let id = AtomicU32::new(0);
    let mut sent = Vec::new();
    let packet = Packet::new(128, &frame, 100);
    encapsulate_packet(packet, &environment(), &near(), 1500, [4; 6], &id, &mut sent).unwrap();
    assert_eq!(id.load(Ordering::Relaxed), 0);
    assert_eq!(sent.len(), 1);
    assert_eq!(sent[0].len(), 1514);
    assert_eq!(sent[0].data().unwrap()[18..21], [0x05, 0xb4, 97]);
    let mut reassembly = Reassembly::default();
    let received =
        decapsulate_packet(sent.remove(0), &environment(), &far(), &mut reassembly).unwrap();
    assert_eq!(received.unwrap().data(), Some(frame.as_slice()));
}

#[test]
fn a_longer_frame_goes_in_fragments() {
    let frame: Vec<u8> = (0..1459u32).map(|i| i as u8).collect();
    let id = AtomicU32::new(0xffff_ffff);
    let mut sent = Vec::new();
    let packet = Packet::new(128, &frame, 100);
    encapsulate_packet(packet, &environment(), &near(), 1500, [4; 6], &id, &mut sent).unwrap();
    assert_eq!(id.load(Ordering::Relaxed), 0);
    assert_eq!(sent.len(), 2);
    let first = sent[0].data().unwrap();
    assert_eq!(first.len(), 54 + 8 + 1448);
    assert_eq!(first[20], 44);
    assert_eq!(first[54..62], [97, 0, 0, 1, 0xff, 0xff, 0xff, 0xff]);
    let second = sent[1].data().unwrap();
    assert_eq!(second.len(), 54 + 8 + 13);
    assert_eq!(second[54..62], [97, 0, 0x05, 0xa8, 0xff, 0xff, 0xff, 0xff]);
    let mut reassembly = Reassembly::default();
    let last = sent.remove(1);
    let first = sent.remove(0);
    assert!(decapsulate_packet(last, &environment(), &far(), &mut reassembly).unwrap().is_none());
    let received = decapsulate_packet(first, &environment(), &far(), &mut reassembly).unwrap();
    assert_eq!(received.unwrap().data(), Some(frame.as_slice()));
}

#[test]
fn identifications_follow_one_another() {
    let id = AtomicU32::new(41);
    for expected in [41u32, 42] {
        let packets = fragment_packets(&[0; 100], &near(), 70, [4; 6], &id).unwrap();
        assert_eq!(packets.len(), 7);
        for packet in packets {
            assert_eq!(packet[58..62], expected.to_be_bytes());
        }
    }
    assert!(fragment_packets(&[0; 100], &near(), 55, [4; 6], &id).is_err());
    assert_eq!(id.load(Ordering::Relaxed), 43);
}

#[test]
fn what_cannot_be_cut_is_refused() {
    let with = |length: usize, mtu: usize| {
        fragment_packets_with(&vec![0; length], &near(), mtu, [4; 6], 0).map(|packets| packets.len())
    };
    assert_eq!(with(65_534, 1500), Err(Error::PayloadLimit));
    assert_eq!(with(65_533, 65_575), Ok(2));
    assert_eq!(with(100, 47), Err(Error::MtuTooSmall));
    assert_eq!(with(100, 48), Err(Error::Unfragmentable));
    assert_eq!(with(100, 55), Err(Error::Unfragmentable));
    assert_eq!(with(100, 56), Ok(13));
    assert_eq!(Error::MtuTooSmall.message(), "MTU too small");
}

#[test]
fn what_cannot_be_wrapped_is_refused() {
    let wrap = |packet: Packet, mtu: usize| {
        let mut sent = Vec::new();
        let done =
            encapsulate_packet_with(packet, &environment(), &near(), mtu, [4; 6], 0, &mut sent);
        done.map(|_| sent.len())
    };
    let mut chained = Packet::new(128, &[0; 20], 0);
    chained.chain(0, &[0; 20], 0);
    assert_eq!(wrap(chained, 1500), Err(Error::MultiSegmentLanPacket));
    assert_eq!(wrap(Packet::new(55, &[0; 20], 0), 1500), Err(Error::Headroom));
    assert_eq!(wrap(Packet::new(56, &[0; 20], 0), 1500), Ok(1));
    assert_eq!(wrap(Packet::new(0, &[0; 3000], 0), 2500), Err(Error::Tailroom));
    assert_eq!(wrap(Packet::new(0, &[0; 3000], 0), 2000), Ok(2));
}

#[test]
fn unrelated_packets_are_passed_over() {
    let mut reassembly = Reassembly::default();
    let mut decapsulate = |bytes: &[u8]| {
        let packet = Packet::new(0, bytes, 0);
        decapsulate_packet_at(packet, &environment(), &far(), &mut reassembly, 0)
            .unwrap()
            .is_some()
    };
    assert!(!decapsulate(&[0; 10]));
    assert!(!decapsulate(&ipv6_packet(&far(), [4; 6], 97, &[0x30, 0, 1])));
    assert!(!decapsulate(&ipv6_packet(&near(), [4; 6], 97, &[0x30, 1, 1])));
    assert!(!decapsulate(&ipv6_packet(&near(), [4; 6], 44, &[97, 0, 0, 0, 0, 0, 0])));
    assert!(!decapsulate(&ipv6_packet(&near(), [4; 6], 44, &[97, 0, 0, 2, 0, 0, 0, 1, 0x30, 0, 1])));
    assert!(!decapsulate(&ipv6_packet(&near(), [4; 6], 44, &[17, 0, 0, 0, 0, 0, 0, 1, 0x30, 0, 1])));
    assert!(!decapsulate(&ipv6_packet(&near(), [4; 6], 44, &[97, 0, 0, 0, 0, 0, 0, 1, 0x31, 0, 1])));
    assert!(decapsulate(&ipv6_packet(&near(), [4; 6], 44, &[97, 0, 0, 0, 0, 0, 0, 1, 0x30, 0, 1])));
    assert!(decapsulate(&ipv6_packet(&near(), [4; 6], 97, &[0x30, 0, 1])));
}

#[test]
fn a_reassembled_frame_must_fit_into_a_buffer() {
    let packets = fragment_packets_with(&vec![7; 2049], &near(), 1500, [4; 6], 5).unwrap();
    let mut reassembly = Reassembly::default();
    let mut last = Ok(None);
    for packet in &packets {
        let packet = Packet::new(0, packet, 0);
        last = decapsulate_packet_at(packet, &environment(), &far(), &mut reassembly, 0);
    }
    assert_eq!(last.unwrap_err(), Error::Tailroom);
}

#[test]
fn the_first_tunnel_to_an_address_counts() {
    let tunnels = [near(), far(), near()];
    assert_eq!(tunnel_for_remote(&Ipv6Addr::from([2; 16]), &tunnels), Some(0));
    assert_eq!(tunnel_for_remote(&Ipv6Addr::from([1; 16]), &tunnels), Some(1));
    assert_eq!(tunnel_for_remote(&Ipv6Addr::from([3; 16]), &tunnels), None);
    assert_eq!(tunnel_index_for_wan(&[1; 37], &tunnels), None);
    assert_eq!(tunnel_index_for_wan(&[1; 38], &tunnels), Some(1));
}

const KEY: ([u8; 16], [u8; 16], u32) = ([1; 16], [2; 16], 7);

#[test]
fn fragments_join_in_any_order() {
    let mut reassembly = Reassembly::default();
    assert_eq!(reassembly.insert_at(KEY, 16, false, &[3; 3], 0), None);
    assert_eq!(reassembly.insert_at(KEY, 0, true, &[1; 8], 0), None);
    let whole = reassembly.insert_at(KEY, 8, true, &[2; 8], 0).unwrap();
    assert_eq!(whole, [vec![1; 8], vec![2; 8], vec![3; 3]].concat());
    assert_eq!(reassembly.insert_at(KEY, 8, true, &[2; 8], 0), None);
}

#[test]
fn fragments_of_other_packets_do_not_join() {
    let mut reassembly = Reassembly::default();
    for key in [([9; 16], KEY.1, 7), (KEY.0, [9; 16], 7), (KEY.0, KEY.1, 8)] {
        assert_eq!(reassembly.insert_at(key, 0, true, &[1; 8], 0), None);
        assert_eq!(reassembly.insert_at(KEY, 8, false, &[2], 0), None);
        let whole = reassembly.insert_at(key, 8, false, &[3], 0).unwrap();
        assert_eq!(whole, [1, 1, 1, 1, 1, 1, 1, 1, 3]);
        reassembly.insert_at(KEY, 8, false, &[2], 0);
    }
}

#[test]
fn an_overlap_or_a_duplicate_drops_the_packet() {
    for (offset, length) in [(0usize, 8usize), (8, 8), (4, 8), (15, 1)] {
        let mut reassembly = Reassembly::default();
        assert_eq!(reassembly.insert_at(KEY, 0, true, &[1; 16], 0), None);
        assert_eq!(reassembly.insert_at(KEY, offset, length % 8 == 0, &vec![2; length], 0), None);
        assert_eq!(reassembly.insert_at(KEY, 16, false, &[3], 0), None);
        let whole = reassembly.insert_at(KEY, 0, true, &[4; 16], 0).unwrap();
        assert_eq!(whole.len(), 17);
        assert_eq!(whole[0], 4);
    }
}

#[test]
fn malformed_fragments_drop_the_packet() {
    for (offset, more, length) in [(8usize, true, 7usize), (65_528, false, 8)] {
        let mut reassembly = Reassembly::default();
        assert_eq!(reassembly.insert_at(KEY, 0, true, &[1; 8], 0), None);
        assert_eq!(reassembly.insert_at(KEY, offset, more, &vec![0; length], 0), None);
        assert_eq!(reassembly.insert_at(KEY, 8, false, &[2], 0), None);
    }
    let mut reassembly = Reassembly::default();
    assert_eq!(reassembly.insert_at(KEY, 0, true, &[1; 8], 0), None);
    assert_eq!(reassembly.insert_at(KEY, usize::MAX, false, &[0; 8], 0), None);
    assert_eq!(reassembly.insert_at(KEY, 8, false, &[2], 0).unwrap().len(), 9);
}

#[test]
fn a_packet_has_at_most_so_many_fragments() {
    let mut reassembly = Reassembly::default();
    for i in 1..129usize {
        assert_eq!(reassembly.insert_at(KEY, i * 8, true, &[0; 8], 0), None);
    }
    assert_eq!(reassembly.insert_at(KEY, 129 * 8, true, &[0; 8], 0), None);
    assert_eq!(reassembly.insert_at(KEY, 0, false, &[5], 0), Some(vec![5]));
}

#[test]
fn so_many_packets_may_wait() {
    let mut reassembly = Reassembly::default();
    for id in 0..1024u32 {
        assert_eq!(reassembly.insert_at((KEY.0, KEY.1, id), 0, true, &[1; 8], 0), None);
    }
    assert_eq!(reassembly.insert_at((KEY.0, KEY.1, 1024), 0, false, &[1], 0), None);
    assert!(reassembly.insert_at((KEY.0, KEY.1, 5), 8, false, &[1], 0).is_some());
    assert!(reassembly.insert_at((KEY.0, KEY.1, 1024), 0, false, &[1], 0).is_some());
}

#[test]
fn packets_wait_for_a_minute_after_their_last_fragment() {
    let mut reassembly = Reassembly::default();
    assert_eq!(reassembly.insert_at(KEY, 0, true, &[1; 8], SECOND), None);
    assert_eq!(reassembly.insert_at(KEY, 8, true, &[2; 8], 50 * SECOND), None);
    reassembly.expire_at(110 * SECOND - 1);
    assert!(reassembly.insert_at(KEY, 16, false, &[3], 110 * SECOND).is_some());
    assert_eq!(reassembly.insert_at(KEY, 0, true, &[1; 8], 200 * SECOND), None);
    reassembly.expire_at(260 * SECOND);
    assert_eq!(reassembly.insert_at(KEY, 8, false, &[3], 260 * SECOND), None);
    reassembly.expire();
}

#[test]
fn sources_count_for_five_minutes() {
    let mut table = MacTable::default();
    let mut frame = [0u8; 14];
    frame[6..12].copy_from_slice(&[2, 3, 4, 5, 6, 7]);
    let mut other = frame;
    other[11] = 8;
    table.learn_source_at(&frame, 10 * SECOND);
    assert!(table.contains_source_at(&frame, 310 * SECOND - 1));
    assert!(!table.contains_source_at(&frame, 310 * SECOND));
    assert!(!table.contains_source_at(&other, 11 * SECOND));
    table.learn_source_at(&other, 200 * SECOND);
    table.expire_at(400 * SECOND);
    assert!(!table.contains_source_at(&frame, 20 * SECOND));
    assert!(table.contains_source_at(&other, 400 * SECOND));
}

#[test]
fn groups_and_short_frames_are_not_learned() {
    let mut table = MacTable::default();
    let mut frame = [0u8; 14];
    frame[6] = 3;
    table.learn_source(&frame);
    assert!(!table.contains_source(&frame));
    table.learn_source(&[0; 11]);
    assert!(!table.contains_source(&[0; 11]));
    table.learn_source(&[0; 12]);
    assert!(table.contains_source(&[0; 12]));
    table.expire();
    assert!(table.contains_source(&[0; 12]));
}

#[test]
fn a_clock_runs() {
    let clock = Clock::start();
    let first = clock.nanos();
    let mut later = clock.nanos();
    while later == first {
        later = clock.nanos();
    }
    assert!(later > first);
    assert!(later < 3600 * SECOND);
}

fn solicitation(source: [u8; 16], destination: [u8; 16]) -> Vec<u8> {
    let mut request = vec![0u8; 78];
    request[6..12].copy_from_slice(&[2, 0, 0, 0, 0, 9]);
    request[12..15].copy_from_slice(&[0x86, 0xdd, 0x60]);
    request[18..22].copy_from_slice(&[0, 24, 58, 255]);
    request[22..38].copy_from_slice(&source);
    request[38..54].copy_from_slice(&destination);
    request[54] = 135;
    request[62..78].copy_from_slice(&[1; 16]);
    let checksum = icmpv6_checksum(&source, &destination, &request[54..]);
    request[56..58].copy_from_slice(&checksum.to_be_bytes());
    request
}

#[test]
fn a_host_without_an_address_is_answered_at_all_nodes() {
    let local = Ipv6Addr::from([1; 16]);
    let mut group = [0; 16];
    group[0] = 0xff;
    group[1] = 2;
    group[11] = 1;
    group[12] = 0xff;
    group[13..].copy_from_slice(&[1, 1, 1]);
    let request = solicitation([0; 16], group);
    let reply = ndp_advertisement(&request, local, [6; 6]).unwrap();
    assert_eq!(reply.len(), 86);
    assert_eq!(reply[..6], [0x33, 0x33, 0, 0, 0, 1]);
    assert_eq!(reply[38..54], [0xff, 2, 0, 0, 0, 0, 0, 0, 0, 0, 0, 0, 0, 0, 0, 1]);
    assert_eq!(reply[58], 0x20);
    let destination: [u8; 16] = reply[38..54].try_into().unwrap();
    assert_eq!(icmpv6_checksum(&[1; 16], &destination, &reply[54..]), 0);
}

#[test]
fn only_sound_solicitations_for_the_address_are_answered() {
    let local = Ipv6Addr::from([1; 16]);
    let good = solicitation([5; 16], [1; 16]);
    assert!(ndp_advertisement(&good, local, [6; 6]).is_some());
    assert!(ndp_advertisement(&good, Ipv6Addr::from([2; 16]), [6; 6]).is_none());
    assert!(ndp_advertisement(&good[..77], local, [6; 6]).is_none());
    for place in [13, 14, 18, 20, 21, 38, 54, 55, 56, 62, 77] {
        let mut request = good.clone();
        request[place] ^= 0x10;
        assert!(ndp_advertisement(&request, local, [6; 6]).is_none(), "{}", place);
    }
}

#[test]
fn checksums_have_their_values() {
    assert_eq!(icmpv6_checksum(&[0; 16], &[0; 16], &[]), 65_535 - 58);
    assert_eq!(icmpv6_checksum(&[0; 16], &[0; 16], &[0x12]), 65_535 - 58 - 1 - 0x1200);
    assert_eq!(icmpv6_checksum(&[0xff; 16], &[0xff; 16], &[0xff, 0xff]), 65_535 - 60);
}

#[test]
fn a_message_about_another_packet_tells_no_mtu() {
    let local = Ipv6Addr::from([1; 16]);
    let build = |place: usize, value: u8| {
        let mut packet = vec![0u8; 102];
        packet[12..15].copy_from_slice(&[0x86, 0xdd, 0x60]);
        packet[18..21].copy_from_slice(&[0, 48, 58]);
        packet[22..38].copy_from_slice(&[4; 16]);
        packet[38..54].copy_from_slice(&[1; 16]);
        packet[54] = 2;
        packet[58..62].copy_from_slice(&70_000u32.to_be_bytes());
        packet[62] = 0x60;
        packet[68] = 44;
        packet[70..86].copy_from_slice(&[1; 16]);
        packet[86..102].copy_from_slice(&[2; 16]);
        packet[place] = value;
        let destination: [u8; 16] = packet[38..54].try_into().unwrap();
        let checksum = icmpv6_checksum(&[4; 16], &destination, &packet[54..]);
        packet[56..58].copy_from_slice(&checksum.to_be_bytes());
        icmpv6_packet_too_big(&packet, local)
    };
    assert_eq!(build(0, 0), Some((70_000, Ipv6Addr::from([2; 16]))));
    for (place, value) in [(54, 1), (62, 0x40), (68, 6), (70, 9), (38, 9), (20, 17), (19, 47)] {
        assert_eq!(build(place, value), None, "{}", place);
    }
}

#[test]
fn padding_of_the_link_stays_out_of_the_frame() {
    let frame: Vec<u8> = (0..20).collect();
    let mut payload = vec![0x30, 0];
    payload.extend_from_slice(&frame);
    let mut whole = ipv6_packet(&near(), [4; 6], 97, &payload);
    whole.extend_from_slice(&[0xee; 30]);
    let mut reassembly = Reassembly::default();
    let packet = Packet::new(10, &whole, 7);
    let received =
        decapsulate_packet_at(packet, &environment(), &far(), &mut reassembly, 0).unwrap();
    let received = received.unwrap();
    assert_eq!(received.data(), Some(frame.as_slice()));
    assert_eq!(received.tailroom(), 37);

    let mut last = None;
    for mut fragment in fragment_packets_with(&frame, &near(), 56, [4; 6], 3).unwrap() {
        fragment.extend_from_slice(&[0xee; 9]);
        let packet = Packet::new(0, &fragment, 0);
        last = decapsulate_packet_at(packet, &environment(), &far(), &mut reassembly, 0).unwrap();
    }
    assert_eq!(last.unwrap().data(), Some(frame.as_slice()));
}

#[test]
fn an_exhausted_pool_stops_fragments_and_reassembly() {
    let packet = Packet::new(0, &[5; 100], 0);
    let pool = Environment { available: 2, ..environment() };
    let mut sent = vec![Packet::new(0, &[9], 0)];
    let done = encapsulate_packet_with(packet, &pool, &near(), 70, [4; 6], 0, &mut sent);
    assert_eq!(done, Err(Error::MbufAllocation));
    assert_eq!(sent.len(), 3);
    assert_eq!(sent[0].data(), Some([9].as_slice()));
    assert_eq!(sent[2].data().unwrap()[56..58], [0, 17]);

    let empty = Environment { available: 0, ..environment() };
    let whole = Packet::new(128, &[5; 20], 0);
    let mut sent = Vec::new();
    encapsulate_packet_with(whole, &empty, &near(), 1500, [4; 6], 0, &mut sent).unwrap();
    assert_eq!(sent.len(), 1);
    let mut reassembly = Reassembly::default();
    let fragment = ipv6_packet(&near(), [4; 6], 44, &[97, 0, 0, 0, 0, 0, 0, 1, 0x30, 0, 1]);
    let packet = Packet::new(0, &fragment, 0);
    let received = decapsulate_packet_at(packet, &empty, &far(), &mut reassembly, 0);
    assert_eq!(received.unwrap_err(), Error::MbufAllocation);
}
