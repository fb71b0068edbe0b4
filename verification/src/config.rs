//! Command-line values and the tunnels that they stand for.

use crate::address;
use crate::address::{read_address, Ipv6Addr};
use crate::bytes::array6_at;
use crate::error::Error;
use crate::text;
use crate::text::{number, split};
use vstd::prelude::*;

verus! {

/// One tunnel endpoint and the LAN-side VLAN that selects it.
///
/// `vlan: None` keeps the legacy single-tunnel mode, in which every LAN frame is
/// bridged as-is (VLAN tags pass through untouched).
#[derive(Clone, Copy, Debug)]
pub struct Tunnel {
    pub vlan: Option<u16>,
    pub local_ipv6: Ipv6Addr,
    pub remote_ipv6: Ipv6Addr,
    pub next_hop_mac: [u8; 6],
    pub mtu: usize,
}

/// Parsed value of one `--tunnel` argument before defaults are resolved.
#[derive(Clone, Copy, Debug)]
pub struct TunnelSpec {
    pub vlan: u16,
    pub remote_ipv6: Ipv6Addr,
    pub next_hop_mac: [u8; 6],
    pub mtu: Option<usize>,
}

/// The options of the program.
#[derive(Debug)]
pub struct Config {
    /// DPDK port connected to the bridged LAN.
    pub lan: u16,
    /// DPDK port carrying the outer IPv6 packets.
    pub wan: u16,
    /// Local address used by the outer IPv6 header.
    pub local_ipv6: Ipv6Addr,
    /// Remote EtherIP endpoint's IPv6 address for the single-tunnel mode.
    pub remote_ipv6: Option<Ipv6Addr>,
    /// Ethernet next-hop for the remote IPv6 endpoint for the single-tunnel mode.
    pub next_hop_mac: Option<[u8; 6]>,
    /// Default outer IPv6 MTU; each tunnel can override it.
    pub mtu: usize,
    /// The tunnels of the VLAN mode.
    pub tunnels: Vec<TunnelSpec>,
    /// RX queue used on both ports.
    pub rx_queue: u16,
    /// TX queue used on both ports.
    pub tx_queue: u16,
    /// RX descriptors allocated per port.
    pub rx_descriptors: u16,
    /// TX descriptors allocated per port.
    pub tx_descriptors: u16,
    /// NUMA socket for the mempool and queues; DPDK chooses it when omitted.
    pub socket_id: Option<u32>,
    /// Number of packets requested from each RX burst.
    pub burst_size: u16,
    /// Number of forwarding workers.
    pub workers: u16,
}

/// The arguments for the EAL and those for the program: up to the first `--` and behind it, or
/// only the program's name and everything. The name stands in front of both.
pub open spec fn split_args_spec(args: Seq<Seq<char>>) -> (Seq<Seq<char>>, Seq<Seq<char>>) {
    match args.index_of_first("--"@) {
        Some(i) => (args.take(i), seq![args[0]] + args.skip(i + 1)),
        None => (seq![args[0]], args),
    }
}

/// Copies the strings from `start` up to `end` behind those in `out`.
fn push_strings(out: &mut Vec<String>, strings: &[String], start: usize, end: usize)
    requires
        start <= end <= strings@.len(),
    ensures
        text::strings(final(out)@) == text::strings(old(out)@) + text::strings(strings@).subrange(
            start as int,
            end as int,
        ),
{
    let ghost before = text::strings(out@);
    let ghost all = text::strings(strings@);
    let mut i: usize = start;
    assert(text::strings(out@) =~= before + all.subrange(start as int, i as int));
    while i < end
        invariant
            start <= i <= end <= strings@.len(),
            all == text::strings(strings@),
            text::strings(out@) == before + all.subrange(start as int, i as int),
        decreases end - i,
    {
        let ghost so_far = text::strings(out@);
        out.push(strings[i].clone());
        proof {
            assert(text::strings(out@) =~= so_far.push(all[i as int]));
            assert(text::strings(out@) =~= before + all.subrange(start as int, i + 1));
        }
        i += 1;
    }
}

/// Splits process arguments into DPDK EAL options and application options.
///
/// Without a `--` separator the whole vector is treated as application options.
pub fn split_args(args: &[String]) -> (parts: (Vec<String>, Vec<String>))
    requires
        args@.len() > 0,
    ensures
        (text::strings(parts.0@), text::strings(parts.1@)) == split_args_spec(text::strings(args@)),
{
    let ghost all = text::strings(args@);
    let separator = "--".to_owned();
    let mut i: usize = 0;
    while i < args.len() && args[i] != separator
        invariant
            i <= args@.len(),
            separator@ == "--"@,
            all == text::strings(args@),
            forall|k: int| 0 <= k < i ==> all[k] != "--"@,
        decreases args@.len() - i,
    {
        assert(all[i as int] == args@[i as int]@);
        i += 1;
    }
    let mut eal: Vec<String> = Vec::new();
    let mut app: Vec<String> = Vec::new();
    proof {
        all.index_of_first_ensures("--"@);
        if i < args@.len() {
            assert(all[i as int] == args@[i as int]@);
            assert(all.contains("--"@));
        }
    }
    if i == args.len() {
        push_strings(&mut eal, args, 0, 1);
        push_strings(&mut app, args, 0, args.len());
        assert(text::strings(eal@) =~= seq![all[0]]);
        assert(text::strings(app@) =~= all);
    } else {
        push_strings(&mut eal, args, 0, i);
        push_strings(&mut app, args, 0, 1);
        push_strings(&mut app, args, i + 1, args.len());
        assert(text::strings(eal@) =~= all.take(i as int));
        assert(text::strings(app@) =~= seq![all[0]] + all.skip(i + 1));
    }
    (eal, app)
}

/// Where a tunnel has a VLAN that an earlier one has too.
pub open spec fn repeats(specs: Seq<TunnelSpec>, i: int) -> bool {
    exists|k: int| 0 <= k < i && #[trigger] specs[k].vlan == specs[i].vlan
}

/// The tunnel that an argument stands for.
pub open spec fn resolved(config: Config, spec: TunnelSpec) -> Tunnel {
    Tunnel {
        vlan: Some(spec.vlan),
        local_ipv6: config.local_ipv6,
        remote_ipv6: spec.remote_ipv6,
        next_hop_mac: spec.next_hop_mac,
        mtu: match spec.mtu {
            Some(mtu) => mtu,
            None => config.mtu,
        },
    }
}

/// The tunnel without a VLAN.
pub open spec fn single_tunnel(config: Config) -> Result<Tunnel, Error> {
    match (config.remote_ipv6, config.next_hop_mac) {
        (None, _) => Err(Error::RemoteIpv6Missing),
        (_, None) => Err(Error::NextHopMacMissing),
        (Some(remote_ipv6), Some(next_hop_mac)) => Ok(
            Tunnel {
                vlan: None,
                local_ipv6: config.local_ipv6,
                remote_ipv6,
                next_hop_mac,
                mtu: config.mtu,
            },
        ),
    }
}

/// Resolves the CLI tunnel definitions into the runtime [`Tunnel`] set.
///
/// The legacy single-tunnel mode uses `--remote-ipv6`/`--next-hop-mac` and keeps
/// `vlan: None`. With `--tunnel`, each entry must carry a unique VLAN ID.
pub fn build_tunnels(config: &Config) -> (tunnels: Result<Vec<Tunnel>, Error>)
    ensures
        config.tunnels@.len() == 0 ==> match tunnels {
            Ok(tunnels) => tunnels@.len() == 1 && single_tunnel(*config) == Ok::<Tunnel, Error>(
                tunnels@[0],
            ),
            Err(error) => single_tunnel(*config) == Err::<Tunnel, Error>(error),
        },
        config.tunnels@.len() > 0 ==> match tunnels {
            Ok(tunnels) => {
                &&& forall|i: int|
                    0 <= i < config.tunnels@.len() ==> !repeats(config.tunnels@, i)
                &&& tunnels@ == config.tunnels@.map_values(
                    |spec: TunnelSpec| resolved(*config, spec),
                )
            },
            Err(error) => exists|i: int|
                {
                    &&& 0 <= i < config.tunnels@.len()
                    &&& #[trigger] repeats(config.tunnels@, i)
                    &&& forall|k: int| 0 <= k < i ==> !repeats(config.tunnels@, k)
                    &&& error == Error::DuplicateVlan(config.tunnels@[i].vlan)
                },
        },
        tunnels matches Ok(tunnels) ==> config.tunnels@.len() > 0 ==> {
            &&& tunnels@.len() == config.tunnels@.len()
            &&& forall|i: int|
                0 <= i < tunnels@.len() ==> (#[trigger] tunnels@[i]).vlan == Some(
                    config.tunnels@[i].vlan,
                )
            &&& forall|i: int|
                0 <= i < tunnels@.len() ==> (#[trigger] tunnels@[i]).remote_ipv6
                    == config.tunnels@[i].remote_ipv6
            &&& forall|i: int|
                0 <= i < tunnels@.len() ==> (#[trigger] tunnels@[i]).next_hop_mac
                    == config.tunnels@[i].next_hop_mac
            &&& forall|i: int|
                0 <= i < tunnels@.len() ==> (#[trigger] tunnels@[i]).local_ipv6 == config.local_ipv6
            &&& forall|i: int|
                0 <= i < tunnels@.len() && config.tunnels@[i].mtu is Some ==> (
                #[trigger] tunnels@[i]).mtu == config.tunnels@[i].mtu->0
            &&& forall|i: int|
                0 <= i < tunnels@.len() && config.tunnels@[i].mtu is None ==> (
                #[trigger] tunnels@[i]).mtu == config.mtu
            &&& forall|i: int, k: int|
                0 <= i < k < tunnels@.len() ==> (#[trigger] tunnels@[i]).vlan != (
                #[trigger] tunnels@[k]).vlan
        },
        tunnels matches Ok(tunnels) ==> config.tunnels@.len() == 0 ==> {
            &&& tunnels@.len() == 1
            &&& tunnels@[0].vlan is None
            &&& config.remote_ipv6 == Some(tunnels@[0].remote_ipv6)
            &&& config.next_hop_mac == Some(tunnels@[0].next_hop_mac)
            &&& tunnels@[0].local_ipv6 == config.local_ipv6
            &&& tunnels@[0].mtu == config.mtu
        },
        tunnels matches Err(error) ==> config.tunnels@.len() > 0 ==> exists|i: int, k: int|
            {
                &&& 0 <= i < k < config.tunnels@.len()
                &&& (#[trigger] config.tunnels@[i]).vlan == (#[trigger] config.tunnels@[k]).vlan
                &&& error == Error::DuplicateVlan(config.tunnels@[k].vlan)
            },
        tunnels matches Err(error) ==> config.tunnels@.len() == 0 ==> {
            ||| config.remote_ipv6 is None && error == Error::RemoteIpv6Missing
            ||| config.remote_ipv6 is Some && config.next_hop_mac is None && error
                == Error::NextHopMacMissing
        },
{
    let mut tunnels: Vec<Tunnel> = Vec::new();
    if config.tunnels.len() == 0 {
        let remote_ipv6 = match config.remote_ipv6 {
            Some(remote_ipv6) => remote_ipv6,
            None => {
                return Err(Error::RemoteIpv6Missing);
            },
        };
        let next_hop_mac = match config.next_hop_mac {
            Some(next_hop_mac) => next_hop_mac,
            None => {
                return Err(Error::NextHopMacMissing);
            },
        };
        tunnels.push(
            Tunnel {
                vlan: None,
                local_ipv6: config.local_ipv6,
                remote_ipv6,
                next_hop_mac,
                mtu: config.mtu,
            },
        );
        return Ok(tunnels);
    }
    let mut i: usize = 0;
    while i < config.tunnels.len()
        invariant
            i <= config.tunnels@.len(),
            tunnels@.len() == i,
            forall|k: int| 0 <= k < i ==> !repeats(config.tunnels@, k),
            forall|k: int|
                0 <= k < i ==> #[trigger] tunnels@[k] == resolved(*config, config.tunnels@[k]),
        decreases config.tunnels@.len() - i,
    {
        let spec = config.tunnels[i];
        let mut k: usize = 0;
        while k < i
            invariant
                k <= i < config.tunnels@.len(),
                spec == config.tunnels@[i as int],
                forall|j: int| 0 <= j < i ==> !repeats(config.tunnels@, j),
                forall|j: int| 0 <= j < k ==> #[trigger] config.tunnels@[j].vlan != spec.vlan,
                config.tunnels@.len() > 0,
            decreases i - k,
        {
            if config.tunnels[k].vlan == spec.vlan {
                proof {
                    assert(config.tunnels@[k as int].vlan == config.tunnels@[i as int].vlan);
                    assert(repeats(config.tunnels@, i as int));
                }
                return Err(Error::DuplicateVlan(spec.vlan));
            }
            k += 1;
        }
        tunnels.push(
            Tunnel {
                vlan: Some(spec.vlan),
                local_ipv6: config.local_ipv6,
                remote_ipv6: spec.remote_ipv6,
                next_hop_mac: spec.next_hop_mac,
                mtu: match spec.mtu {
                    Some(mtu) => mtu,
                    None => config.mtu,
                },
            },
        );
        i += 1;
    }
    assert(tunnels@ =~= config.tunnels@.map_values(|spec: TunnelSpec| resolved(*config, spec)));
    assert forall|i: int, k: int| 0 <= i < k < tunnels@.len() implies (#[trigger] tunnels@[i]).vlan
        != (#[trigger] tunnels@[k]).vlan by {
        assert(!repeats(config.tunnels@, k));
        assert(config.tunnels@[i].vlan != config.tunnels@[k].vlan);
    }
    Ok(tunnels)
}

/// What reading an option comes to: a value, or why there is none.
pub type Reading<T> = Result<T, Seq<char>>;

/// The reading of a number between two bounds.
pub open spec fn bounded_spec(
    text: Seq<char>,
    max: int,
    low: int,
    high: int,
    no_number: Seq<char>,
    out_of_bounds: Seq<char>,
) -> Reading<int> {
    match text::number_spec(text, 10, max) {
        None => Err(no_number),
        Some(value) => if low <= value <= high {
            Ok(value)
        } else {
            Err(out_of_bounds)
        },
    }
}

pub open spec fn vlan_reading(text: Seq<char>) -> Reading<int> {
    bounded_spec(
        text,
        0xffff,
        1,
        4094,
        "VLAN ID must be an integer"@,
        "VLAN ID must be between 1 and 4094"@,
    )
}

pub open spec fn mtu_reading(text: Seq<char>) -> Reading<int> {
    bounded_spec(
        text,
        usize::MAX as int,
        70,
        65_575,
        "MTU must be an integer"@,
        "MTU must be between 70 and 65575"@,
    )
}

pub open spec fn nonzero_reading(text: Seq<char>) -> Reading<int> {
    bounded_spec(
        text,
        0xffff,
        1,
        0xffff,
        "value must be an integer"@,
        "value must be greater than zero"@,
    )
}

pub open spec fn burst_reading(text: Seq<char>) -> Reading<int> {
    match nonzero_reading(text) {
        Ok(value) => if value % 8 == 0 {
            Ok(value)
        } else {
            Err("burst size must be a multiple of 8"@)
        },
        Err(message) => Err(message),
    }
}

/// The reading of a MAC address: six hexadecimal bytes with colons between them.
pub open spec fn mac_reading(text: Seq<char>) -> Reading<Seq<u8>> {
    let parts = text::split_spec(text, ':');
    if exists|i: int|
        0 <= i < parts.len() && text::number_spec(#[trigger] parts[i], 16, 255) is None {
        Err("invalid next-hop MAC"@)
    } else if parts.len() != 6 {
        Err("next-hop MAC must contain six octets"@)
    } else {
        Ok(parts.map_values(|part: Seq<char>| text::number_spec(part, 16, 255)->0 as u8))
    }
}

/// What an argument for a tunnel holds.
pub struct TunnelModel {
    pub vlan: int,
    pub remote_ipv6: Seq<u8>,
    pub next_hop_mac: Seq<u8>,
    pub mtu: Option<int>,
}

impl View for TunnelSpec {
    type V = TunnelModel;

    open spec fn view(&self) -> TunnelModel {
        TunnelModel {
            vlan: self.vlan as int,
            remote_ipv6: self.remote_ipv6@,
            next_hop_mac: self.next_hop_mac@,
            mtu: match self.mtu {
                Some(mtu) => Some(mtu as int),
                None => None,
            },
        }
    }
}

/// The reading of an MTU that may be missing.
pub open spec fn last_reading(parts: Seq<Seq<char>>) -> Reading<Option<int>> {
    if parts.len() < 4 {
        Ok(None)
    } else {
        match mtu_reading(parts[3]) {
            Ok(mtu) => Ok(Some(mtu)),
            Err(message) => Err(message),
        }
    }
}

/// The reading of an argument for a tunnel: three or four parts with commas between them, of
/// which the first that is wrong counts.
pub open spec fn tunnel_reading(text: Seq<char>) -> Reading<TunnelModel> {
    let parts = text::split_spec(text, ',');
    if !(3 <= parts.len() <= 4) {
        Err("--tunnel must be <VLAN>,<REMOTE_IPV6>,<NEXT_HOP_MAC>[,<MTU>]"@)
    } else {
        match vlan_reading(parts[0]) {
            Err(message) => Err(message),
            Ok(vlan) => match address::address_spec(parts[1]) {
                None => Err("invalid remote IPv6 address in --tunnel"@),
                Some(remote_ipv6) => match mac_reading(parts[2]) {
                    Err(message) => Err(message),
                    Ok(next_hop_mac) => match last_reading(parts) {
                        Err(message) => Err(message),
                        Ok(mtu) => Ok(TunnelModel { vlan, remote_ipv6, next_hop_mac, mtu }),
                    },
                },
            },
        }
    }
}

/// Reads a number between two bounds.
fn bounded(
    text: &str,
    max: u64,
    low: u64,
    high: u64,
    no_number: &str,
    out_of_bounds: &str,
) -> (value: Result<u64, String>)
    ensures
        match value {
            Ok(value) => {
                &&& low <= value <= high
                &&& bounded_spec(
                    text@,
                    max as int,
                    low as int,
                    high as int,
                    no_number@,
                    out_of_bounds@,
                ) == Ok::<int, Seq<char>>(value as int)
            },
            Err(message) => bounded_spec(
                text@,
                max as int,
                low as int,
                high as int,
                no_number@,
                out_of_bounds@,
            ) == Err::<int, Seq<char>>(message@),
        },
{
    match number(text, 10, max) {
        None => Err(no_number.to_owned()),
        Some(value) => {
            if low <= value && value <= high {
                Ok(value)
            } else {
                Err(out_of_bounds.to_owned())
            }
        },
    }
}

/// Reads a VLAN ID.
pub fn parse_vlan(value: &str) -> (vlan: Result<u16, String>)
    ensures
        match vlan {
            Ok(vlan) => vlan_reading(value@) == Ok::<int, Seq<char>>(vlan as int),
            Err(message) => vlan_reading(value@) == Err::<int, Seq<char>>(message@),
        },
{
    match bounded(
        value,
        0xffff,
        1,
        4094,
        "VLAN ID must be an integer",
        "VLAN ID must be between 1 and 4094",
    ) {
        Ok(vlan) => Ok(vlan as u16),
        Err(message) => Err(message),
    }
}

/// Reads an MTU.
pub fn parse_mtu(value: &str) -> (mtu: Result<usize, String>)
    ensures
        match mtu {
            Ok(mtu) => mtu_reading(value@) == Ok::<int, Seq<char>>(mtu as int),
            Err(message) => mtu_reading(value@) == Err::<int, Seq<char>>(message@),
        },
{
    match bounded(
        value,
        usize::MAX as u64,
        70,
        65_575,
        "MTU must be an integer",
        "MTU must be between 70 and 65575",
    ) {
        Ok(mtu) => Ok(mtu as usize),
        Err(message) => Err(message),
    }
}

/// Reads a number that is not zero.
pub fn parse_nonzero_u16(value: &str) -> (number: Result<u16, String>)
    ensures
        match number {
            Ok(number) => nonzero_reading(value@) == Ok::<int, Seq<char>>(number as int),
            Err(message) => nonzero_reading(value@) == Err::<int, Seq<char>>(message@),
        },
{
    match bounded(
        value,
        0xffff,
        1,
        0xffff,
        "value must be an integer",
        "value must be greater than zero",
    ) {
        Ok(number) => Ok(number as u16),
        Err(message) => Err(message),
    }
}

/// Reads a burst size.
pub fn parse_burst_size(value: &str) -> (size: Result<u16, String>)
    ensures
        match size {
            Ok(size) => burst_reading(value@) == Ok::<int, Seq<char>>(size as int),
            Err(message) => burst_reading(value@) == Err::<int, Seq<char>>(message@),
        },
{
    let size: u16 = match parse_nonzero_u16(value) {
        Ok(size) => size,
        Err(message) => {
            return Err(message);
        },
    };
    if size % 8 == 0 {
        Ok(size)
    } else {
        Err("burst size must be a multiple of 8".to_owned())
    }
}

/// Reads a MAC address.
pub fn parse_mac(value: &str) -> (mac: Result<[u8; 6], String>)
    ensures
        match mac {
            Ok(mac) => mac_reading(value@) == Ok::<Seq<u8>, Seq<char>>(mac@),
            Err(message) => mac_reading(value@) == Err::<Seq<u8>, Seq<char>>(message@),
        },
{
    let parts = split(value, ':');
    let ghost texts = text::split_spec(value@, ':');
    let mut bytes: Vec<u8> = Vec::new();
    let mut i: usize = 0;
    while i < parts.len()
        invariant
            i <= parts@.len(),
            texts == text::split_spec(value@, ':'),
            texts == text::texts(parts@),
            bytes@.len() == i,
            forall|k: int|
                0 <= k < i ==> text::number_spec(#[trigger] texts[k], 16, 255) == Some(
                    bytes@[k] as int,
                ),
        decreases parts@.len() - i,
    {
        assert(texts[i as int] == parts@[i as int]@);
        match number(parts[i], 16, 255) {
            Some(byte) => bytes.push(byte as u8),
            None => {
                return Err("invalid next-hop MAC".to_owned());
            },
        }
        i += 1;
    }
    if bytes.len() != 6 {
        return Err("next-hop MAC must contain six octets".to_owned());
    }
    let mac = array6_at(&bytes, 0);
    assert(mac@ =~= texts.map_values(|part: Seq<char>| text::number_spec(part, 16, 255)->0 as u8));
    Ok(mac)
}

/// Reads an IPv6 address.
pub fn parse_ipv6(value: &str) -> (address: Result<Ipv6Addr, String>)
    ensures
        match address {
            Ok(address) => address::address_spec(value@) == Some(address@),
            Err(message) => address::address_spec(value@) is None && message@
                == "invalid IPv6 address syntax"@,
        },
{
    match read_address(value) {
        Some(address) => Ok(address),
        None => Err("invalid IPv6 address syntax".to_owned()),
    }
}

/// Reads an argument for a tunnel: `<VLAN>,<REMOTE_IPV6>,<NEXT_HOP_MAC>[,<MTU>]`.
pub fn parse_tunnel(value: &str) -> (spec: Result<TunnelSpec, String>)
    ensures
        match spec {
            Ok(spec) => tunnel_reading(value@) == Ok::<TunnelModel, Seq<char>>(spec@),
            Err(message) => tunnel_reading(value@) == Err::<TunnelModel, Seq<char>>(message@),
        },
{
    let parts = split(value, ',');
    let ghost texts = text::split_spec(value@, ',');
    if parts.len() < 3 || parts.len() > 4 {
        return Err("--tunnel must be <VLAN>,<REMOTE_IPV6>,<NEXT_HOP_MAC>[,<MTU>]".to_owned());
    }
    proof {
        assert(texts[0] == parts@[0]@);
        assert(texts[1] == parts@[1]@);
        assert(texts[2] == parts@[2]@);
    }
    let vlan: u16 = match parse_vlan(parts[0]) {
        Ok(vlan) => vlan,
        Err(message) => {
            return Err(message);
        },
    };
    let remote_ipv6: Ipv6Addr = match read_address(parts[1]) {
        Some(remote_ipv6) => remote_ipv6,
        None => {
            return Err("invalid remote IPv6 address in --tunnel".to_owned());
        },
    };
    let next_hop_mac: [u8; 6] = match parse_mac(parts[2]) {
        Ok(next_hop_mac) => next_hop_mac,
        Err(message) => {
            return Err(message);
        },
    };
    let mtu: Option<usize> = if parts.len() == 4 {
        assert(texts[3] == parts@[3]@);
        match parse_mtu(parts[3]) {
            Ok(mtu) => Some(mtu),
            Err(message) => {
                return Err(message);
            },
        }
    } else {
        None
    };
    Ok(TunnelSpec { vlan, remote_ipv6, next_hop_mac, mtu })
}

/// The name of the program and every argument but the separator go to one side or the other, and
/// no separator goes to the EAL.
pub proof fn split_args_loses_nothing(args: Seq<Seq<char>>)
    requires
        args.len() > 0,
        args[0] != "--"@,
    ensures
        ({
            let (eal, app) = split_args_spec(args);
            &&& eal.len() > 0 && eal[0] == args[0]
            &&& app.len() > 0 && app[0] == args[0]
            &&& !eal.contains("--"@)
            &&& args.contains("--"@) ==> args == eal + seq!["--"@] + app.skip(1)
            &&& !args.contains("--"@) ==> args == app && eal.len() == 1
        }),
{
    let (eal, app) = split_args_spec(args);
    args.index_of_first_ensures("--"@);
    match args.index_of_first("--"@) {
        Some(i) => {
            assert(args =~= eal + seq!["--"@] + app.skip(1));
            assert forall|k: int| 0 <= k < eal.len() implies eal[k] != "--"@ by {
                assert(eal[k] == args[k]);
            }
        },
        None => {},
    }
}

/// A tunnel holds what its own argument gives, the local address that all tunnels share, and the
/// common MTU only where the argument gives none.
pub proof fn tunnels_hold_their_own(config: Config, spec: TunnelSpec)
    ensures
        resolved(config, spec).vlan == Some(spec.vlan),
        resolved(config, spec).remote_ipv6 == spec.remote_ipv6,
        resolved(config, spec).next_hop_mac == spec.next_hop_mac,
        resolved(config, spec).local_ipv6 == config.local_ipv6,
        spec.mtu is Some ==> resolved(config, spec).mtu == spec.mtu->0,
        spec.mtu is None ==> resolved(config, spec).mtu == config.mtu,
{
}

/// The arguments before the first separator go to the EAL; those behind it go to the program, behind
/// its name.
pub proof fn split_args_at(args: Seq<Seq<char>>, i: int)
    requires
        0 <= i < args.len(),
        args[i] == "--"@,
        forall|k: int| 0 <= k < i ==> #[trigger] args[k] != "--"@,
    ensures
        ({
            let (eal, app) = split_args_spec(args);
            &&& eal == args.subrange(0, i)
            &&& app.len() == args.len() - i
            &&& app[0] == args[0]
            &&& forall|k: int| 0 < k < app.len() ==> #[trigger] app[k] == args[i + k]
        }),
{
    args.index_of_first_ensures("--"@);
    assert(args.contains("--"@));
    assert(args.take(i) =~= args.subrange(0, i));
}

/// What the numbers among the options may be: a VLAN from 1 to 4094, a count from 1 to 65535, and a
/// burst size that is such a count and a multiple of 8.
pub proof fn counts_read(text: Seq<char>)
    ensures
        match text::number_spec(text, 10, 65_535) {
            None => {
                &&& vlan_reading(text) == Err::<int, Seq<char>>("VLAN ID must be an integer"@)
                &&& nonzero_reading(text) == Err::<int, Seq<char>>("value must be an integer"@)
                &&& burst_reading(text) == Err::<int, Seq<char>>("value must be an integer"@)
            },
            Some(value) => {
                &&& 1 <= value <= 4094 ==> vlan_reading(text) == Ok::<int, Seq<char>>(value)
                &&& value == 0 || value > 4094 ==> vlan_reading(text) == Err::<int, Seq<char>>(
                    "VLAN ID must be between 1 and 4094"@,
                )
                &&& value > 0 ==> nonzero_reading(text) == Ok::<int, Seq<char>>(value)
                &&& value == 0 ==> nonzero_reading(text) == Err::<int, Seq<char>>(
                    "value must be greater than zero"@,
                )
                &&& value > 0 && value % 8 == 0 ==> burst_reading(text) == Ok::<int, Seq<char>>(
                    value,
                )
                &&& value == 0 ==> burst_reading(text) == Err::<int, Seq<char>>(
                    "value must be greater than zero"@,
                )
                &&& value > 0 && value % 8 != 0 ==> burst_reading(text) == Err::<int, Seq<char>>(
                    "burst size must be a multiple of 8"@,
                )
            },
        },
{
}

/// What an MTU may be: from 70 to 65575.
pub proof fn mtus_read(text: Seq<char>)
    ensures
        match text::number_spec(text, 10, usize::MAX as int) {
            None => mtu_reading(text) == Err::<int, Seq<char>>("MTU must be an integer"@),
            Some(value) => {
                &&& 70 <= value <= 65_575 ==> mtu_reading(text) == Ok::<int, Seq<char>>(value)
                &&& value < 70 || value > 65_575 ==> mtu_reading(text) == Err::<int, Seq<char>>(
                    "MTU must be between 70 and 65575"@,
                )
            },
        },
{
}

/// Every number within its bounds is read from its decimal digits.
pub proof fn decimals_read(value: int)
    ensures
        1 <= value <= 4094 ==> vlan_reading(text::decimal_spec(value)) == Ok::<int, Seq<char>>(
            value,
        ),
        70 <= value <= 65_575 ==> mtu_reading(text::decimal_spec(value)) == Ok::<int, Seq<char>>(
            value,
        ),
        1 <= value <= 65_535 ==> nonzero_reading(text::decimal_spec(value)) == Ok::<int, Seq<char>>(
            value,
        ),
        1 <= value <= 8191 ==> burst_reading(text::decimal_spec(8 * value)) == Ok::<int, Seq<char>>(
            8 * value,
        ),
{
    if 1 <= value <= 65_535 {
        text::decimal_reads_back(value, 65_535);
    }
    if 1 <= value <= 8191 {
        text::decimal_reads_back(8 * value, 65_535);
    }
    if 70 <= value <= 65_575 {
        text::decimal_reads_back(value, usize::MAX as int);
    }
}

/// Six hexadecimal bytes with colons between them are a MAC address, byte by byte, and nothing else
/// is one.
pub proof fn macs_read(parts: Seq<Seq<char>>)
    requires
        parts.len() > 0,
        forall|i: int| 0 <= i < parts.len() ==> !(#[trigger] parts[i]).contains(':'),
    ensures
        ({
            let reading = mac_reading(text::joined_with(parts, ':'));
            let bytes = forall|i: int|
                0 <= i < parts.len() ==> text::number_spec(#[trigger] parts[i], 16, 255) is Some;
            &&& !bytes ==> reading == Err::<Seq<u8>, Seq<char>>("invalid next-hop MAC"@)
            &&& bytes && parts.len() != 6 ==> reading == Err::<Seq<u8>, Seq<char>>(
                "next-hop MAC must contain six octets"@,
            )
            &&& bytes && parts.len() == 6 ==> {
                &&& reading is Ok
                &&& reading->Ok_0.len() == 6
                &&& forall|i: int|
                    0 <= i < 6 ==> text::number_spec(#[trigger] parts[i], 16, 255) == Some(
                        reading->Ok_0[i] as int,
                    )
            }
        }),
{
    text::split_of_joined(parts, ':');
    let reading = mac_reading(text::joined_with(parts, ':'));
    let bytes = forall|i: int|
        0 <= i < parts.len() ==> text::number_spec(#[trigger] parts[i], 16, 255) is Some;
    if bytes && parts.len() == 6 {
        assert forall|i: int| 0 <= i < 6 implies text::number_spec(#[trigger] parts[i], 16, 255)
            == Some(reading->Ok_0[i] as int) by {
            text::numbers_not_negative(parts[i], 16, 255);
        }
    }
}

/// An argument for a tunnel gives its VLAN, its address, its MAC address and, if it has a fourth
/// part, its MTU, each from its own part; of several wrong parts the first counts.
pub proof fn tunnels_read(parts: Seq<Seq<char>>)
    requires
        parts.len() > 0,
        forall|i: int| 0 <= i < parts.len() ==> !(#[trigger] parts[i]).contains(','),
    ensures
        ({
            let reading = tunnel_reading(text::joined_with(parts, ','));
            if parts.len() != 3 && parts.len() != 4 {
                reading == Err::<TunnelModel, Seq<char>>(
                    "--tunnel must be <VLAN>,<REMOTE_IPV6>,<NEXT_HOP_MAC>[,<MTU>]"@,
                )
            } else if vlan_reading(parts[0]) is Err {
                reading == Err::<TunnelModel, Seq<char>>(vlan_reading(parts[0])->Err_0)
            } else if address::address_spec(parts[1]) is None {
                reading == Err::<TunnelModel, Seq<char>>("invalid remote IPv6 address in --tunnel"@)
            } else if mac_reading(parts[2]) is Err {
                reading == Err::<TunnelModel, Seq<char>>(mac_reading(parts[2])->Err_0)
            } else if parts.len() == 4 && mtu_reading(parts[3]) is Err {
                reading == Err::<TunnelModel, Seq<char>>(mtu_reading(parts[3])->Err_0)
            } else {
                &&& reading is Ok
                &&& reading->Ok_0.vlan == vlan_reading(parts[0])->Ok_0
                &&& address::address_spec(parts[1]) == Some(reading->Ok_0.remote_ipv6)
                &&& reading->Ok_0.next_hop_mac == mac_reading(parts[2])->Ok_0
                &&& parts.len() == 3 ==> reading->Ok_0.mtu is None
                &&& parts.len() == 4 ==> reading->Ok_0.mtu == Some(mtu_reading(parts[3])->Ok_0)
            }
        }),
{
    text::split_of_joined(parts, ',');
}

/// An argument for a tunnel holds what its fields say.
pub proof fn arguments_are_faithful(spec: TunnelSpec)
    ensures
        spec@.vlan == spec.vlan,
        spec@.remote_ipv6 == spec.remote_ipv6.octets@,
        spec@.next_hop_mac == spec.next_hop_mac@,
        spec.mtu is None ==> spec@.mtu is None,
        spec.mtu matches Some(mtu) ==> spec@.mtu == Some(mtu as int),
{
}

} // verus!
