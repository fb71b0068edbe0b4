use etherip::address::{read_address, Ipv6Addr};
use etherip::config::{
    build_tunnels, parse_burst_size, parse_ipv6, parse_mac, parse_mtu, parse_nonzero_u16,
    parse_tunnel, parse_vlan, split_args, Config, TunnelSpec,
};
use etherip::error::{Error, ErrorKind};
use etherip::linkage::{sort_flags, sort_output};
use etherip::text::words;
use etherip::workers::{
    check_lcores, mempool_config, port_config, worker_lcore, worker_queues, worker_result,
};

fn options() -> Config {
    Config {
        lan: 0,
        wan: 1,
        local_ipv6: Ipv6Addr::from([1; 16]),
        remote_ipv6: None,
        next_hop_mac: None,
        tunnels: Vec::new(),
        mtu: 1500,
        rx_queue: 2,
        tx_queue: 3,
        rx_descriptors: 1024,
        tx_descriptors: 512,
        socket_id: None,
        burst_size: 32,
        workers: 1,
    }
}

fn spec(vlan: u16, mtu: Option<usize>) -> TunnelSpec {
    TunnelSpec {
        vlan,
        remote_ipv6: Ipv6Addr::from([vlan as u8; 16]),
        next_hop_mac: [7; 6],
        mtu,
    }
}

fn strings(words: &[&str]) -> Vec<String> {
    words.iter().map(|word| word.to_string()).collect()
}

#[test]
fn splits_arguments_at_the_first_separator() {
    let args = strings(&["etherip", "-l", "0", "--", "--mtu", "1500", "--", "x"]);
    let (eal, app) = split_args(&args);
    assert_eq!(eal, ["etherip", "-l", "0"]);
    assert_eq!(app, ["etherip", "--mtu", "1500", "--", "x"]);
}

#[test]
fn takes_everything_without_a_separator() {
    let args = strings(&["etherip", "--mtu", "1500"]);
    let (eal, app) = split_args(&args);
    assert_eq!(eal, ["etherip"]);
    assert_eq!(app, ["etherip", "--mtu", "1500"]);
}

#[test]
fn single_mode_needs_both_options() {
    let mut config = options();
    assert_eq!(build_tunnels(&config).unwrap_err(), Error::RemoteIpv6Missing);
    config.remote_ipv6 = Some(Ipv6Addr::from([2; 16]));
    let error = build_tunnels(&config).unwrap_err();
    assert_eq!(error, Error::NextHopMacMissing);
    assert_eq!(error.kind(), ErrorKind::InvalidInput);
    assert_eq!(error.message(), "--next-hop-mac is required without --tunnel");
    config.next_hop_mac = Some([3; 6]);
    let tunnels = build_tunnels(&config).unwrap();
    assert_eq!(tunnels.len(), 1);
    assert_eq!(tunnels[0].vlan, None);
    assert_eq!(tunnels[0].local_ipv6, Ipv6Addr::from([1; 16]));
    assert_eq!(tunnels[0].remote_ipv6, Ipv6Addr::from([2; 16]));
    assert_eq!(tunnels[0].next_hop_mac, [3; 6]);
    assert_eq!(tunnels[0].mtu, 1500);
}

#[test]
fn vlan_mode_resolves_defaults_and_ignores_single_options() {
    let mut config = options();
    config.remote_ipv6 = Some(Ipv6Addr::from([2; 16]));
    config.tunnels = vec![spec(100, None), spec(200, Some(9000))];
    let tunnels = build_tunnels(&config).unwrap();
    assert_eq!(tunnels.len(), 2);
    assert_eq!((tunnels[0].vlan, tunnels[0].mtu), (Some(100), 1500));
    assert_eq!((tunnels[1].vlan, tunnels[1].mtu), (Some(200), 9000));
    assert_eq!(tunnels[1].remote_ipv6, Ipv6Addr::from([200; 16]));
    assert_eq!(tunnels[1].local_ipv6, Ipv6Addr::from([1; 16]));
}

#[test]
fn the_first_repeated_vlan_is_named() {
    let mut config = options();
    config.tunnels = vec![spec(1, None), spec(4094, None), spec(4094, None), spec(1, None)];
    let error = build_tunnels(&config).unwrap_err();
    assert_eq!(error, Error::DuplicateVlan(4094));
    assert_eq!(error.message(), "duplicate tunnel VLAN ID 4094");
}

#[test]
fn reads_vlan_ids() {
    assert_eq!(parse_vlan("1"), Ok(1));
    assert_eq!(parse_vlan("+4094"), Ok(4094));
    assert_eq!(parse_vlan("0100"), Ok(100));
    for text in ["", "+", "-1", "1 ", "0x10", "65536", "ten"] {
        assert_eq!(parse_vlan(text), Err("VLAN ID must be an integer".to_string()));
    }
    for text in ["0", "4095", "65535"] {
        assert_eq!(parse_vlan(text), Err("VLAN ID must be between 1 and 4094".to_string()));
    }
}

#[test]
fn reads_mtus() {
    assert_eq!(parse_mtu("70"), Ok(70));
    assert_eq!(parse_mtu("65575"), Ok(65_575));
    assert_eq!(parse_mtu("69"), Err("MTU must be between 70 and 65575".to_string()));
    assert_eq!(parse_mtu("65576"), Err("MTU must be between 70 and 65575".to_string()));
    assert_eq!(parse_mtu("1500b"), Err("MTU must be an integer".to_string()));
    assert_eq!(
        parse_mtu("99999999999999999999999"),
        Err("MTU must be an integer".to_string())
    );
}

#[test]
fn reads_counts_and_burst_sizes() {
    assert_eq!(parse_nonzero_u16("65535"), Ok(65_535));
    assert_eq!(parse_nonzero_u16("0"), Err("value must be greater than zero".to_string()));
    assert_eq!(parse_nonzero_u16("70000"), Err("value must be an integer".to_string()));
    assert_eq!(parse_burst_size("32"), Ok(32));
    assert_eq!(parse_burst_size("33"), Err("burst size must be a multiple of 8".to_string()));
    assert_eq!(parse_burst_size("0"), Err("value must be greater than zero".to_string()));
    assert_eq!(parse_burst_size("x"), Err("value must be an integer".to_string()));
}

#[test]
fn reads_mac_addresses() {
    assert_eq!(parse_mac("02:00:00:00:00:02"), Ok([2, 0, 0, 0, 0, 2]));
    assert_eq!(parse_mac("fF:+a:1:0:7f:80"), Ok([255, 10, 1, 0, 127, 128]));
    for text in ["", "02:00:00:00:00:0g", "02:00:00:00:00:100", "02:00::00:00:02", "02-00"] {
        assert_eq!(parse_mac(text), Err("invalid next-hop MAC".to_string()));
    }
    for text in ["02:00:00:00:00", "02:00:00:00:00:02:03"] {
        assert_eq!(parse_mac(text), Err("next-hop MAC must contain six octets".to_string()));
    }
}

fn octets(text: &str) -> Option<[u8; 16]> {
    read_address(text).map(|address| address.octets())
}

#[test]
fn reads_addresses() {
    assert_eq!(octets("::"), Some([0; 16]));
    assert_eq!(octets("::1"), Some([0, 0, 0, 0, 0, 0, 0, 0, 0, 0, 0, 0, 0, 0, 0, 1]));
    assert_eq!(octets("1::"), Some([0, 1, 0, 0, 0, 0, 0, 0, 0, 0, 0, 0, 0, 0, 0, 0]));
    assert_eq!(
        octets("2001:db8:1::2"),
        Some([0x20, 1, 0x0d, 0xb8, 0, 1, 0, 0, 0, 0, 0, 0, 0, 0, 0, 2])
    );
    assert_eq!(
        octets("0:1:2:3:4:5:6:ABCD"),
        Some([0, 0, 0, 1, 0, 2, 0, 3, 0, 4, 0, 5, 0, 6, 0xab, 0xcd])
    );
    assert_eq!(
        octets("1:2:3:4:5:6:7::"),
        Some([0, 1, 0, 2, 0, 3, 0, 4, 0, 5, 0, 6, 0, 7, 0, 0])
    );
    assert_eq!(
        octets("::2:3:4:5:6:7:8"),
        Some([0, 0, 0, 2, 0, 3, 0, 4, 0, 5, 0, 6, 0, 7, 0, 8])
    );
    assert_eq!(
        octets("::ffff:192.0.2.33"),
        Some([0, 0, 0, 0, 0, 0, 0, 0, 0, 0, 0xff, 0xff, 192, 0, 2, 33])
    );
    assert_eq!(
        octets("1:2:3:4:5:6:1.2.3.255"),
        Some([0, 1, 0, 2, 0, 3, 0, 4, 0, 5, 0, 6, 1, 2, 3, 255])
    );
}

#[test]
fn refuses_what_is_no_address() {
    for text in [
        "",
        ":",
        ":::",
        "1",
        "1:2:3:4:5:6:7",
        "1:2:3:4:5:6:7:8:9",
        "1:2:3:4:5:6:7:8::",
        "::1:2:3:4:5:6:7:8",
        "1::2::3",
        ":1:2:3:4:5:6:7:8",
        "1:2:3:4:5:6:7:8:",
        "12345::",
        "g::",
        "+1::",
        " ::1",
        "::1%0",
        "1.2.3.4",
        "1.2.3.4::",
        "::1.2.3",
        "::1.2.3.4.5",
        "::1.2.3.256",
        "::01.2.3.4",
        "::1.2.3.4:5",
        "1:2:3:4:5:6:7:1.2.3.4",
        "1:2:3:4:5:6::1.2.3.4",
    ] {
        assert_eq!(octets(text), None, "{}", text);
        assert_eq!(parse_ipv6(text), Err("invalid IPv6 address syntax".to_string()));
    }
}

#[test]
fn reads_tunnels_and_names_the_first_mistake() {
    let spec = parse_tunnel("200,2001:db8::3,02:00:00:00:00:03").unwrap();
    assert_eq!((spec.vlan, spec.mtu), (200, None));
    let format = "--tunnel must be <VLAN>,<REMOTE_IPV6>,<NEXT_HOP_MAC>[,<MTU>]";
    assert_eq!(parse_tunnel("").unwrap_err(), format);
    assert_eq!(parse_tunnel("1,::1").unwrap_err(), format);
    assert_eq!(parse_tunnel("1,::1,02:00:00:00:00:03,1500,").unwrap_err(), format);
    assert_eq!(parse_tunnel("x,y,z").unwrap_err(), "VLAN ID must be an integer");
    assert_eq!(
        parse_tunnel("1,y,z").unwrap_err(),
        "invalid remote IPv6 address in --tunnel"
    );
    assert_eq!(parse_tunnel("1,::1,z").unwrap_err(), "invalid next-hop MAC");
    assert_eq!(
        parse_tunnel("1,::1,02:00:00:00:00:03,69").unwrap_err(),
        "MTU must be between 70 and 65575"
    );
    assert_eq!(
        parse_tunnel("1,::1,02:00:00:00:00:03,").unwrap_err(),
        "MTU must be an integer"
    );
}

#[test]
fn one_worker_has_the_queues_that_are_named() {
    let config = options();
    let port = port_config(&config);
    assert_eq!((port.rx_queue, port.tx_queue), (2, 3));
    assert_eq!((port.rx_descriptors, port.tx_descriptors), (1024, 512));
    assert!(port.promiscuous);
    assert_eq!(worker_queues(&config, 0), (2, 3));
}

#[test]
fn several_workers_have_a_queue_each() {
    let mut config = options();
    config.workers = 4;
    config.socket_id = Some(1);
    let port = port_config(&config);
    assert_eq!((port.rx_queue, port.tx_queue), (3, 3));
    assert_eq!(port.socket_id, Some(1));
    for worker in 0..4 {
        assert_eq!(worker_queues(&config, worker), (worker, worker));
    }
}

#[test]
fn the_pool_is_on_the_socket_that_is_named() {
    let mut config = options();
    let pool = mempool_config(&config).unwrap();
    assert_eq!((pool.packet_count, pool.cache_size), (8191, 256));
    assert_eq!((pool.data_room_size, pool.socket_id), (2176, None));
    config.socket_id = Some(0x7fff_ffff);
    assert_eq!(mempool_config(&config).unwrap().socket_id, Some(0x7fff_ffff));
    config.socket_id = Some(0x8000_0000);
    let error = mempool_config(&config).unwrap_err();
    assert_eq!(error, Error::SocketId);
    assert_eq!(error.message(), "socket ID exceeds i32");
}

#[test]
fn workers_need_an_lcore_each_beside_the_main_one() {
    assert_eq!(check_lcores(2, 3), Ok(()));
    let error = check_lcores(2, 2).unwrap_err();
    assert_eq!(error, Error::FewLcores { workers: 2, lcores: 2 });
    assert_eq!(
        error.message(),
        "--workers 2 requires 3 lcores in the EAL -l mask, but only 2 are configured"
    );
    assert_eq!(worker_lcore(Some(5)), Ok(5));
    let error = worker_lcore(None).unwrap_err();
    assert_eq!(error.message(), "not enough worker lcores in the EAL -l mask");
    assert_eq!(error.kind(), ErrorKind::InvalidInput);
    assert_eq!(worker_result(0), Ok(()));
    let error = worker_result(-1).unwrap_err();
    assert_eq!(error.message(), "forwarding worker failed");
    assert_eq!(error.kind(), ErrorKind::Other);
}

#[test]
fn sorts_the_flags_of_dpdk() {
    let flags = strings(&[
        "-I/usr/include/dpdk",
        "-include",
        "rte_config.h",
        "-march=native",
        "-L/usr/lib",
        "-lrte_eal",
        "-Wl,--as-needed",
        "-lrte_mbuf.h",
        "-l",
    ]);
    let (compiler, linker) = sort_flags(&flags);
    assert_eq!(
        compiler,
        ["-I/usr/include/dpdk", "-include", "rte_config.h", "-march=native", "-lrte_mbuf.h"]
    );
    assert_eq!(
        linker,
        [
            "cargo:rustc-link-search=native=/usr/lib",
            "cargo:rustc-link-lib=rte_eal",
            "cargo:rustc-link-lib=",
        ]
    );
}

#[test]
fn sorts_what_pkg_config_prints() {
    let (compiler, linker) = sort_output("-I/a  -lx\t-L/b\n");
    assert_eq!(compiler, ["-I/a"]);
    assert_eq!(linker, ["cargo:rustc-link-lib=x", "cargo:rustc-link-search=native=/b"]);
    assert!(words(" \u{2003}\n").is_empty());
    assert_eq!(words("a\u{a0}bc d"), ["a", "bc", "d"]);
}

/// The options that the program's arguments stand for, with the program's defaults.
fn read_options(app: &[String]) -> Config {
    let mut config = Config { rx_queue: 0, tx_queue: 0, tx_descriptors: 1024, ..options() };
    for pair in app[1..].chunks(2) {
        let value = pair[1].as_str();
        match pair[0].as_str() {
            "--lan-port" => config.lan = value.parse().unwrap(),
            "--wan-port" => config.wan = value.parse().unwrap(),
            "--local-ipv6" => config.local_ipv6 = parse_ipv6(value).unwrap(),
            "--remote-ipv6" => config.remote_ipv6 = Some(parse_ipv6(value).unwrap()),
            "--next-hop-mac" => config.next_hop_mac = Some(parse_mac(value).unwrap()),
            "--tunnel" => config.tunnels.push(parse_tunnel(value).unwrap()),
            option => panic!("unknown option {}", option),
        }
    }
    config
}

#[test]
fn parses_cli_after_eal_separator() {
    let args = [
        "etherip",
        "-l",
        "0",
        "--",
        "--lan-port",
        "0",
        "--wan-port",
        "1",
        "--local-ipv6",
        "2001:db8::1",
        "--remote-ipv6",
        "2001:db8::2",
        "--next-hop-mac",
        "02:00:00:00:00:02",
    ]
    .map(str::to_owned);
    let (eal, app) = split_args(&args);
    let config = read_options(&app);
    assert_eq!(eal, ["etherip", "-l", "0"]);
    assert_eq!(config.mtu, 1500);
    assert_eq!(config.next_hop_mac, Some([2, 0, 0, 0, 0, 2]));
    assert!(config.tunnels.is_empty());
    assert_eq!(build_tunnels(&config).unwrap().pop().unwrap().vlan, None);
}

#[test]
fn parses_multiple_tunnels_from_cli() {
    let args = [
        "etherip",
        "--lan-port",
        "0",
        "--wan-port",
        "1",
        "--local-ipv6",
        "2001:db8::1",
        "--tunnel",
        "100,2001:db8::2,02:00:00:00:00:02",
        "--tunnel",
        "200,2001:db8::3,02:00:00:00:00:03,9000",
    ]
    .map(str::to_owned);
    let config = read_options(&args);
    assert_eq!(config.remote_ipv6, None);
    assert_eq!(config.next_hop_mac, None);
    let tunnels = build_tunnels(&config).unwrap();
    assert_eq!(tunnels.len(), 2);
    assert_eq!(tunnels[0].vlan, Some(100));
    assert_eq!(tunnels[1].vlan, Some(200));
    assert_eq!(tunnels[1].mtu, 9000);
}
