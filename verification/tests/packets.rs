use etherip::dpdk::{
    burst_count, check, eal_arguments, eal_started, last_error, packet_length, pool_name,
    transmitted, validate_burst, Environment, MempoolConfig, Packet,
};
use etherip::error::{Error, ErrorKind};
use etherip::etherip::{add_vlan_tag, strip_vlan_tag, vlan_id};
use etherip::port::{Call, Failure, PortConfig, Setup};

fn tagged_frame(vlan: u16) -> Vec<u8> {
    let mut frame: Vec<u8> = (0..12).collect();
    frame.extend_from_slice(&[0x81, 0, (vlan >> 8) as u8, vlan as u8]);
    frame.extend_from_slice(&[0x08, 0x00, 1, 2, 3, 4]);
    frame
}

#[test]
fn a_fresh_packet_has_the_pool_s_headroom() {
    let dpdk = Environment { config: MempoolConfig::default(), available: 1 };
    let mut packet = dpdk.packet(&[1, 2, 3]).unwrap();
    assert_eq!(packet.len(), 3);
    assert!(!packet.is_empty());
    assert_eq!(packet.data(), Some([1, 2, 3].as_slice()));
    packet.prepend(128).unwrap().fill(9);
    assert_eq!(packet.len(), 131);
    assert_eq!(packet.data().unwrap()[127..], [9, 1, 2, 3]);
    assert_eq!(packet.prepend(1).unwrap_err(), Error::Headroom);
    assert_eq!(packet.len(), 131);
}

#[test]
fn a_packet_must_fit_into_its_buffer() {
    let dpdk = Environment { config: MempoolConfig::default(), available: 1 };
    assert_eq!(dpdk.packet(&vec![0; 2048]).unwrap().len(), 2048);
    assert_eq!(dpdk.packet(&vec![0; 2049]).unwrap_err(), Error::Tailroom);
    assert_eq!(dpdk.packet(&vec![0; 65_536]).unwrap_err(), Error::PacketLength);
    let small = Environment {
        config: MempoolConfig { data_room_size: 100, ..MempoolConfig::default() },
        available: 1,
    };
    assert!(small.packet(&[]).unwrap().is_empty());
    assert_eq!(small.packet(&[1]).unwrap_err(), Error::Tailroom);
}

#[test]
fn bytes_are_taken_from_both_ends() {
    let mut packet = Packet::new(4, &[1, 2, 3, 4, 5], 2);
    packet.adjust(2).unwrap();
    assert_eq!(packet.data(), Some([3, 4, 5].as_slice()));
    packet.trim_tail(1).unwrap();
    assert_eq!(packet.data(), Some([3, 4].as_slice()));
    assert_eq!(packet.adjust(3), Err(Error::Adjustment));
    assert_eq!(packet.trim_tail(3), Err(Error::Adjustment));
    assert_eq!(packet.adjust(65_536), Err(Error::PacketLength));
    assert_eq!(packet.prepend(65_536).unwrap_err(), Error::PacketLength);
    packet.append(3).unwrap().copy_from_slice(&[6, 7, 8]);
    assert_eq!(packet.data(), Some([3, 4, 6, 7, 8].as_slice()));
    assert_eq!(packet.append(1).unwrap_err(), Error::Tailroom);
    packet.data_mut().unwrap()[0] = 0;
    packet.prepend(6).unwrap()[5] = 2;
    assert_eq!(packet.data().unwrap()[5..], [2, 0, 4, 6, 7, 8]);
}

#[test]
fn several_segments_have_no_bytes_in_one_piece() {
    let mut packet = Packet::new(128, &[1, 2], 0);
    packet.chain(0, &[3, 4, 5], 4);
    assert_eq!(packet.len(), 5);
    assert_eq!(packet.data(), None);
    assert_eq!(packet.data_mut(), None);
    packet.append(4).unwrap();
    assert_eq!(packet.len(), 9);
    packet.trim_tail(5).unwrap();
    assert_eq!(packet.len(), 4);
    assert_eq!(strip_vlan_tag(&mut packet), Err(Error::MultiSegmentVlanPacket));
    assert_eq!(add_vlan_tag(&mut packet, 5), Err(Error::MultiSegmentTunnelFrame));
    assert_eq!(packet.len(), 8);
    assert_eq!(Error::MultiSegmentTunnelFrame.kind(), ErrorKind::InvalidData);
}

#[test]
fn a_tag_is_taken_out_and_put_back() {
    let mut high = Packet::new(64, &[7; 20], 4);
    add_vlan_tag(&mut high, 0xf123).unwrap();
    assert_eq!(vlan_id(high.data().unwrap()), Some(0x123));
    strip_vlan_tag(&mut high).unwrap();
    assert_eq!(high.data(), Some([7; 20].as_slice()));
    let frame = tagged_frame(0x123);
    let mut packet = Packet::new(64, &frame, 0);
    strip_vlan_tag(&mut packet).unwrap();
    let mut untagged = frame[..12].to_vec();
    untagged.extend_from_slice(&frame[16..]);
    assert_eq!(packet.data(), Some(untagged.as_slice()));
    assert_eq!(strip_vlan_tag(&mut packet), Err(Error::NoVlanTag));
    add_vlan_tag(&mut packet, 0x123).unwrap();
    assert_eq!(packet.data(), Some(frame.as_slice()));
    assert_eq!(vlan_id(packet.data().unwrap()), Some(0x123));
}

#[test]
fn a_tag_needs_tailroom() {
    for length in [14, 5] {
        let mut packet = Packet::new(64, &vec![0; length], 3);
        assert_eq!(packet.tailroom(), 3);
        assert_eq!(add_vlan_tag(&mut packet, 1), Err(Error::Tailroom));
        assert_eq!(packet.len(), length);
    }
}

#[test]
fn priority_bits_do_not_count_for_the_vlan() {
    let mut frame = tagged_frame(0xf064);
    assert_eq!(vlan_id(&frame), Some(0x064));
    frame[13] = 1;
    assert_eq!(vlan_id(&frame), None);
    assert_eq!(vlan_id(&tagged_frame(7)[..15]), None);
}

#[test]
fn bursts_have_limits() {
    assert_eq!(validate_burst(8), Ok(()));
    assert_eq!(validate_burst(65_528), Ok(()));
    for count in [0, 1, 12, 65_535] {
        assert_eq!(validate_burst(count), Err(Error::RxBurst));
    }
    assert_eq!(burst_count(65_535), Ok(65_535));
    assert_eq!(burst_count(65_536), Err(Error::TxBurst));
    assert_eq!(packet_length(65_535), Ok(65_535));
    assert_eq!(packet_length(65_536), Err(Error::PacketLength));
}

#[test]
fn packets_that_were_not_sent_wait() {
    let mut packets: Vec<Packet> = (0..4).map(|i| Packet::new(0, &[i], 0)).collect();
    transmitted(&mut packets, 3);
    assert_eq!(packets.len(), 1);
    assert_eq!(packets[0].data(), Some([3].as_slice()));
    transmitted(&mut packets, 0);
    assert_eq!(packets.len(), 1);
    transmitted(&mut packets, 1);
    assert!(packets.is_empty());
}

#[test]
fn error_numbers_become_errors() {
    assert_eq!(check(3), Ok(3));
    assert_eq!(check(0), Ok(0));
    assert_eq!(check(-22), Err(Error::Os(22)));
    assert_eq!(Error::Os(22).kind(), ErrorKind::Os(22));
    assert_eq!(last_error(12), Error::Os(12));
    assert_eq!(last_error(0), Error::NoErrno);
    assert_eq!(last_error(-1).message(), "DPDK operation failed without setting rte_errno");
}

#[test]
fn arguments_become_c_strings() {
    let args = vec!["etherip".to_string(), "".to_string(), "\u{e9}".to_string()];
    let strings = eal_arguments(&args).unwrap();
    assert_eq!(strings, [b"etherip\0".to_vec(), vec![0], vec![0xc3, 0xa9, 0]]);
    let args = vec!["a".to_string(), "b\0c".to_string()];
    assert_eq!(eal_arguments(&args), Err(Error::NulArgument));
    assert_eq!(pool_name(4321), "etherip_4321");
    assert_eq!(pool_name(0), "etherip_0");
}

#[test]
fn a_port_is_opened_step_by_step() {
    let config = PortConfig { rx_queue: 1, rx_descriptors: 64, ..PortConfig::default() };
    let mut setup = Setup::begin(1, 2, config).unwrap();
    let mut calls = Vec::new();
    while let Some(call) = setup.next() {
        calls.push(call);
        setup.answer(if call == Call::Socket { 7 } else { 0 }).unwrap();
    }
    assert_eq!(
        calls,
        [
            Call::Configure { rx_queues: 2, tx_queues: 1 },
            Call::Socket,
            Call::RxQueue { queue: 0, descriptors: 64, socket: 7 },
            Call::RxQueue { queue: 1, descriptors: 64, socket: 7 },
            Call::TxQueue { queue: 0, descriptors: 1024, socket: 7 },
            Call::Start,
            Call::Promiscuous,
        ]
    );
}

#[test]
fn a_port_on_a_named_socket_is_not_asked_for_one() {
    let config = PortConfig {
        socket_id: Some(3),
        promiscuous: false,
        tx_descriptors: 8,
        ..PortConfig::default()
    };
    let mut setup = Setup::begin(0, 1, config).unwrap();
    let mut calls = Vec::new();
    while let Some(call) = setup.next() {
        calls.push(call);
        setup.answer(0).unwrap();
    }
    assert_eq!(
        calls,
        [
            Call::Configure { rx_queues: 1, tx_queues: 1 },
            Call::RxQueue { queue: 0, descriptors: 1024, socket: 3 },
            Call::TxQueue { queue: 0, descriptors: 8, socket: 3 },
            Call::Start,
        ]
    );
}

#[test]
fn a_port_is_closed_again_once_it_was_configured() {
    let mut setup = Setup::begin(0, 1, PortConfig::default()).unwrap();
    assert_eq!(setup.answer(-16), Err(Failure { error: Error::Os(16), close: false }));
    setup.answer(0).unwrap();
    assert_eq!(setup.next(), Some(Call::Socket));
    assert_eq!(setup.answer(-1), Err(Failure { error: Error::Os(1), close: true }));
}

#[test]
fn a_port_must_exist_and_have_its_queues() {
    let config = PortConfig::default();
    assert_eq!(Setup::begin(2, 2, config).unwrap_err(), Error::NoSuchPort);
    let config = PortConfig { rx_queue: 65_535, tx_queue: 65_535, ..config };
    assert_eq!(Setup::begin(1, 2, config).unwrap_err(), Error::RxQueueId);
    let config = PortConfig { rx_queue: 65_534, ..config };
    assert_eq!(Setup::begin(1, 2, config).unwrap_err(), Error::TxQueueId);
    assert_eq!(Error::TxQueueId.message(), "TX queue ID is too large");
}

#[test]
fn an_exhausted_pool_gives_no_packet() {
    let dpdk = Environment { config: MempoolConfig::default(), available: 0 };
    let error = dpdk.packet(&[1]).unwrap_err();
    assert_eq!(error, Error::MbufAllocation);
    assert_eq!(error.kind(), ErrorKind::Other);
    assert_eq!(error.message(), "mbuf allocation failed");
    assert_eq!(dpdk.packet(&vec![0; 65_536]).unwrap_err(), Error::MbufAllocation);
}

#[test]
fn the_eal_says_how_many_arguments_it_took() {
    assert_eq!(eal_started(0, 5), Ok(0));
    assert_eq!(eal_started(4, 0), Ok(4));
    assert_eq!(eal_started(-1, 13), Err(Error::Os(13)));
    assert_eq!(eal_started(-1, 0), Err(Error::NoErrno));
}
