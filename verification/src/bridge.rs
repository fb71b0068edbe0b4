//! What the bridge does with each packet that it receives.

use crate::address::Ipv6Addr;
use crate::clock;
use crate::clock::Clock;
use crate::config::Tunnel;
use crate::dpdk;
use crate::dpdk::{Environment, MempoolConfig, Packet, PacketModel};
use crate::error::Error;
use crate::etherip;
use crate::etherip::{
    add_vlan_tag, decapsulate_packet_at, encapsulate_packet_with, strip_vlan_tag,
    tunnel_for_lan_frame, tunnel_for_remote, tunnel_index_for_wan, Sending,
};
use crate::mac_table;
use crate::mac_table::{MacModel, MacTable, MAC_AGE};
use crate::ndp;
use crate::ndp::{icmpv6_packet_too_big, ndp_advertisement};
use crate::reassembly;
use crate::reassembly::{Arrival, Flow, Pending, Reassembly, Step};
use vstd::prelude::*;

verus! {

/// How often old addresses and fragments are looked for, in nanoseconds.
pub const EXPIRY_INTERVAL: u128 = 5_000_000_000;

/// The smallest MTU that a link for IPv6 may have; no message makes a path narrower.
pub const LEAST_MTU: u32 = 1280;

/// What the bridge knows.
pub struct BridgeModel {
    pub config: MempoolConfig,
    pub tunnels: Seq<Tunnel>,
    pub tables: Seq<MacModel>,
    pub packets: Map<Flow, Pending>,
    pub path_mtu: Seq<u32>,
    pub frag_id: u32,
    pub wan_mac: Seq<u8>,
    pub local_ipv6: Seq<u8>,
    pub next_expiry: int,
}

/// What becomes of the bridge and what it sends into the WAN.
pub type LanOutcome = (BridgeModel, Sending);

/// What becomes of the bridge, and what it sends into the WAN and into the LAN.
pub type WanOutcome = (BridgeModel, Result<(Seq<PacketModel>, Seq<PacketModel>), Error>);

impl BridgeModel {
    /// Every tunnel has a table and a path MTU of its own.
    pub open spec fn wf(self) -> bool {
        &&& self.tables.len() == self.tunnels.len()
        &&& self.path_mtu.len() == self.tunnels.len()
        &&& self.wan_mac.len() == 6
        &&& self.local_ipv6.len() == 16
    }

    /// The packet buffers, of which the pool can give `available`.
    pub open spec fn dpdk(self, available: usize) -> Environment {
        Environment { config: self.config, available }
    }

    /// The packet from the LAN as it goes into tunnel `i`: without its tag where a VLAN
    /// selects the tunnel.
    pub open spec fn prepared(self, packet: PacketModel, i: int) -> Result<PacketModel, Error> {
        if self.tunnels[i].vlan is Some {
            etherip::stripped(packet)
        } else {
            Ok(packet)
        }
    }

    /// Whether a frame takes an identification on its way into tunnel `i`.
    pub open spec fn takes_id(self, packet: PacketModel, i: int) -> bool {
        let mtu = self.path_mtu[i] as int;
        &&& packet.single()
        &&& packet.data().len() + 42 > mtu
        &&& etherip::fragments_spec(
            packet.data(),
            self.tunnels[i],
            mtu,
            self.wan_mac,
            self.frag_id,
        ) is Ok
    }

    /// The bridge after an identification has been given out.
    pub open spec fn with_next_id(self) -> BridgeModel {
        BridgeModel { frag_id: ((self.frag_id + 1) % 0x1_0000_0000) as u32, ..self }
    }

    /// What comes of a packet from the LAN at time `now`, when the pool can give `available`
    /// buffers.
    pub open spec fn lan_outcome(
        self,
        packet: PacketModel,
        available: usize,
        now: int,
    ) -> LanOutcome {
        let frame = packet.data();
        if !packet.single() {
            (self, Ok(Seq::empty()))
        } else {
            match etherip::lan_tunnel(frame, self.tunnels) {
                None => (self, Ok(Seq::empty())),
                Some(i) => if mac_table::reflected(self.tables[i], frame, now) {
                    (self, Ok(Seq::empty()))
                } else {
                    match self.prepared(packet, i) {
                        Err(error) => (self, etherip::failed(error)),
                        Ok(prepared) => (
                            if self.takes_id(prepared, i) {
                                self.with_next_id()
                            } else {
                                self
                            },
                            etherip::encapsulated(
                                prepared,
                                self.dpdk(available),
                                self.tunnels[i],
                                self.path_mtu[i] as int,
                                self.wan_mac,
                                self.frag_id,
                            ),
                        ),
                    }
                },
            }
        }
    }

    /// The path MTU after a message that gives `told`: never wider, and never narrower than
    /// IPv6 allows on its account.
    pub open spec fn lowered(mtu: u32, told: int) -> u32 {
        let wanted = if told < LEAST_MTU {
            LEAST_MTU as int
        } else {
            told
        };
        if wanted < mtu {
            wanted as u32
        } else {
            mtu
        }
    }

    /// The frame from tunnel `i` as it goes into the LAN.
    pub open spec fn delivered(self, frame: PacketModel, i: int) -> Result<PacketModel, Error> {
        match self.tunnels[i].vlan {
            Some(vlan) => if frame.data().len() < 12 && frame.last().tailroom() >= 4 {
                Err(Error::ShortFrame)
            } else {
                etherip::vlan_added(frame, vlan)
            },
            None => Ok(frame),
        }
    }

    /// What comes of a packet from the far end of tunnel `i` at time `now`.
    pub open spec fn tunnel_outcome(
        self,
        packet: PacketModel,
        i: int,
        available: usize,
        now: int,
    ) -> WanOutcome {
        let (packets, result) = etherip::decapsulated(
            packet,
            self.dpdk(available),
            self.tunnels[i],
            self.packets,
            now,
        );
        let after = BridgeModel { packets, ..self };
        match result {
            Err(error) => (after, Err(error)),
            Ok(None) => (after, Ok((Seq::empty(), Seq::empty()))),
            Ok(Some(frame)) => (
                BridgeModel {
                    tables: self.tables.update(
                        i,
                        mac_table::learned(self.tables[i], frame.data(), now),
                    ),
                    ..after
                },
                match self.delivered(frame, i) {
                    Ok(packet) => Ok((Seq::empty(), seq![packet])),
                    Err(error) => Err(error),
                },
            ),
        }
    }

    /// The bridge after a Packet Too Big message.
    pub open spec fn told(self, data: Seq<u8>) -> BridgeModel {
        match etherip::remote_tunnel(ndp::told_destination(data), self.tunnels) {
            Some(i) => BridgeModel {
                path_mtu: self.path_mtu.update(
                    i,
                    Self::lowered(self.path_mtu[i], ndp::told_mtu(data)),
                ),
                ..self
            },
            None => self,
        }
    }

    /// What comes of a packet from the WAN at time `now`, when the pool can give `available`
    /// buffers.
    pub open spec fn wan_outcome(
        self,
        packet: PacketModel,
        available: usize,
        now: int,
    ) -> WanOutcome {
        let data = packet.data();
        let nothing = Ok((Seq::empty(), Seq::empty()));
        if !packet.single() {
            (self, nothing)
        } else if ndp::solicits(data, self.local_ipv6) {
            (
                self,
                match dpdk::allocated(
                    self.dpdk(available),
                    ndp::advertisement(data, self.local_ipv6, self.wan_mac),
                ) {
                    Ok(reply) => Ok((seq![reply], Seq::empty())),
                    Err(error) => Err(error),
                },
            )
        } else {
            match etherip::wan_tunnel(data, self.tunnels) {
                Some(i) => self.tunnel_outcome(packet, i, available, now),
                None => if ndp::too_big(data, self.local_ipv6) {
                    (self.told(data), nothing)
                } else {
                    (self, nothing)
                },
            }
        }
    }

    /// The bridge after it has looked for old addresses and fragments, if it is time to.
    pub open spec fn aged(self, now: int) -> BridgeModel {
        if now >= self.next_expiry {
            BridgeModel {
                tables: self.tables.map_values(|table: MacModel| mac_table::aged(table, now)),
                packets: reassembly::unexpired(self.packets, now),
                next_expiry: now + EXPIRY_INTERVAL,
                ..self
            }
        } else {
            self
        }
    }
}

/// A packet that the bridge receives, when it comes, and how many buffers the pool can give then.
pub struct Input {
    pub packet: PacketModel,
    pub available: usize,
    pub now: int,
}

/// What happens to a bridge.
pub enum Event {
    /// A packet comes from the LAN.
    Lan(Input),
    /// A packet comes from the WAN.
    Wan(Input),
    /// The bridge looks for old addresses and fragments.
    Age(int),
}

impl Event {
    /// When the event happens.
    pub open spec fn time(self) -> int {
        match self {
            Event::Lan(input) => input.now,
            Event::Wan(input) => input.now,
            Event::Age(now) => now,
        }
    }
}

/// Whether events happen one after the other, none of them later than `now`.
pub open spec fn in_time(events: Seq<Event>, now: int) -> bool {
    &&& forall|a: int, b: int|
        0 <= a <= b < events.len() ==> (#[trigger] events[a]).time() <= (
        #[trigger] events[b]).time()
    &&& forall|a: int| 0 <= a < events.len() ==> (#[trigger] events[a]).time() <= now
}

impl BridgeModel {
    /// The bridge after an event.
    pub open spec fn after(self, event: Event) -> BridgeModel {
        match event {
            Event::Lan(input) => self.lan_outcome(input.packet, input.available, input.now).0,
            Event::Wan(input) => self.wan_outcome(input.packet, input.available, input.now).0,
            Event::Age(now) => self.aged(now),
        }
    }

    /// The bridge after events, one after the other.
    pub open spec fn run(self, events: Seq<Event>) -> BridgeModel
        decreases events.len(),
    {
        if events.len() == 0 {
            self
        } else {
            self.run(events.drop_last()).after(events.last())
        }
    }

    /// The fragment that an event adds to the packets that wait.
    pub open spec fn fragment(self, event: Event) -> Option<Arrival> {
        match event {
            Event::Wan(input) => {
                let data = input.packet.data();
                if input.packet.single() && !ndp::solicits(data, self.local_ipv6) {
                    match etherip::wan_tunnel(data, self.tunnels) {
                        Some(j) => etherip::fragment_in(input.packet, self.tunnels[j], input.now),
                        None => None,
                    }
                } else {
                    None
                }
            },
            _ => None,
        }
    }

    /// What an event is for the packets that wait.
    pub open spec fn step(self, event: Event) -> Step {
        match event {
            Event::Age(now) => if now >= self.next_expiry {
                Step::Expires(now)
            } else {
                Step::Passes
            },
            _ => match self.fragment(event) {
                Some(fragment) => Step::Arrives(fragment),
                None => Step::Passes,
            },
        }
    }

    /// What events one after the other are for the packets that wait.
    pub open spec fn steps(self, events: Seq<Event>) -> Seq<Step> {
        Seq::new(events.len(), |n: int| self.run(events.take(n)).step(events[n]))
    }

    /// Whether an event adds a fragment to the packet under `key`.
    pub open spec fn brings(self, key: Flow) -> spec_fn(Event) -> bool {
        |event: Event| self.fragment(event) matches Some(fragment) && fragment.key == key
    }

    /// The source that the bridge learns from tunnel `i` on an event.
    pub open spec fn hears(self, event: Event, i: int) -> Option<Seq<u8>> {
        match event {
            Event::Wan(input) => {
                let data = input.packet.data();
                if input.packet.single() && !ndp::solicits(data, self.local_ipv6)
                    && etherip::wan_tunnel(data, self.tunnels) == Some(i) {
                    match etherip::decapsulated(
                        input.packet,
                        self.dpdk(input.available),
                        self.tunnels[i],
                        self.packets,
                        input.now,
                    ).1 {
                        Ok(Some(frame)) => if mac_table::learnable(frame.data()) {
                            mac_table::source_spec(frame.data())
                        } else {
                            None
                        },
                        _ => None,
                    }
                } else {
                    None
                }
            },
            _ => None,
        }
    }

    /// Whether a source is not heard in tunnel `i` after event `k`.
    pub open spec fn silent(self, events: Seq<Event>, k: int, i: int, source: Seq<u8>) -> bool {
        forall|n: int|
            k < n < events.len() ==> (#[trigger] self.run(events.take(n))).hears(events[n], i)
                != Some(source)
    }
}

/// Everything that the workers of a bridge share.
pub struct Bridge {
    clock: Clock,
    config: MempoolConfig,
    tunnels: Vec<Tunnel>,
    mac_tables: Vec<MacTable>,
    reassembly: Reassembly,
    path_mtu: Vec<u32>,
    frag_id: u32,
    wan_mac: [u8; 6],
    local_ipv6: Ipv6Addr,
    next_expiry: u128,
}

impl View for Bridge {
    type V = BridgeModel;

    closed spec fn view(&self) -> BridgeModel {
        BridgeModel {
            config: self.config,
            tunnels: self.tunnels@,
            tables: self.mac_tables@.map_values(|table: MacTable| table@),
            packets: self.reassembly@,
            path_mtu: self.path_mtu@,
            frag_id: self.frag_id,
            wan_mac: self.wan_mac@,
            local_ipv6: self.local_ipv6@,
            next_expiry: self.next_expiry as int,
        }
    }
}

/// The path MTUs that a bridge starts with: those of its tunnels, in 32 bits.
pub open spec fn initial_mtus(tunnels: Seq<Tunnel>) -> Seq<u32> {
    tunnels.map_values(|tunnel: Tunnel| (tunnel.mtu as int % 0x1_0000_0000) as u32)
}

impl Bridge {
    /// The clock that the bridge goes by.
    pub closed spec fn clock(&self) -> Clock {
        self.clock
    }

    pub closed spec fn wf(&self) -> bool {
        self@.wf() && self.reassembly.wf()
    }

    /// A bridge that has seen nothing yet.
    pub fn new(
        config: MempoolConfig,
        tunnels: Vec<Tunnel>,
        wan_mac: [u8; 6],
        local_ipv6: Ipv6Addr,
    ) -> (bridge: Bridge)
        ensures
            bridge.wf(),
            bridge@.wf(),
            bridge@.config == config,
            bridge@.tunnels == tunnels@,
            forall|i: int|
                0 <= i < tunnels@.len() ==> (#[trigger] bridge@.tables[i]).remote == Map::<
                    Seq<u8>,
                    int,
                >::empty(),
            forall|i: int|
                0 <= i < tunnels@.len() ==> MAC_AGE <= (#[trigger] bridge@.tables[i]).next_expiry
                    <= clock::last_tick() + MAC_AGE,
            bridge@.packets == Map::<Flow, Pending>::empty(),
            bridge@.path_mtu == initial_mtus(tunnels@),
            bridge@.frag_id == 0,
            bridge@.wan_mac == wan_mac@,
            bridge@.local_ipv6 == local_ipv6@,
            EXPIRY_INTERVAL <= bridge@.next_expiry <= clock::last_tick() + EXPIRY_INTERVAL,
    {
        let clock = Clock::start();
        let mut mac_tables: Vec<MacTable> = Vec::new();
        let mut path_mtu: Vec<u32> = Vec::new();
        let mut i: usize = 0;
        while i < tunnels.len()
            invariant
                i <= tunnels@.len(),
                mac_tables@.len() == i,
                path_mtu@.len() == i,
                forall|k: int|
                    0 <= k < i ==> (#[trigger] mac_tables@[k])@.remote == Map::<
                        Seq<u8>,
                        int,
                    >::empty(),
                forall|k: int|
                    0 <= k < i ==> MAC_AGE <= (#[trigger] mac_tables@[k])@.next_expiry
                        <= clock::last_tick() + MAC_AGE,
                forall|k: int|
                    0 <= k < i ==> #[trigger] path_mtu@[k] == tunnels@[k].mtu as int
                        % 0x1_0000_0000,
            decreases tunnels@.len() - i,
        {
            mac_tables.push(MacTable::with_clock(clock));
            path_mtu.push((tunnels[i].mtu as u64 % 0x1_0000_0000) as u32);
            i += 1;
        }
        let next_expiry = clock.nanos() + EXPIRY_INTERVAL;
        let bridge = Bridge {
            clock,
            config,
            tunnels,
            mac_tables,
            reassembly: Reassembly::with_clock(clock),
            path_mtu,
            frag_id: 0,
            wan_mac,
            local_ipv6,
            next_expiry,
        };
        assert(bridge@.path_mtu =~= initial_mtus(tunnels@));
        bridge
    }

    /// The MTU of the path of a tunnel.
    pub fn path_mtu(&self, tunnel: usize) -> (mtu: Option<u32>)
        requires
            self.wf(),
        ensures
            mtu == if tunnel < self@.tunnels.len() {
                Some(self@.path_mtu[tunnel as int])
            } else {
                None
            },
    {
        if tunnel < self.path_mtu.len() {
            Some(self.path_mtu[tunnel])
        } else {
            None
        }
    }

    /// Takes a packet from the LAN; what it sends into the WAN goes behind `to_wan`. The pool can
    /// give `available` buffers.
    pub fn lan_packet(&mut self, packet: Packet, available: usize, to_wan: &mut Vec<Packet>) -> (done:
        Result<(), Error>)
        requires
            old(self).wf(),
            packet@.wf(),
        ensures
            final(self).wf(),
            final(self).clock() == old(self).clock(),
            exists|now: u128|
                {
                    let (after, sent) = #[trigger] old(self)@.lan_outcome(
                        packet@,
                        available,
                        now as int,
                    );
                    &&& now <= clock::last_tick()
                    &&& final(self)@ == after
                    &&& etherip::answered(done, sent, old(to_wan)@, final(to_wan)@)
                },
    {
        let now = self.clock.nanos();
        self.lan_packet_at(packet, available, now, to_wan)
    }

    /// Takes a packet that comes from the LAN at time `now`.
    pub fn lan_packet_at(
        &mut self,
        packet: Packet,
        available: usize,
        now: u128,
        to_wan: &mut Vec<Packet>,
    ) -> (done: Result<(), Error>)
        requires
            old(self).wf(),
            packet@.wf(),
        ensures
            final(self).wf(),
            final(self).clock() == old(self).clock(),
            ({
                let (after, sent) = old(self)@.lan_outcome(packet@, available, now as int);
                &&& final(self)@ == after
                &&& etherip::answered(done, sent, old(to_wan)@, final(to_wan)@)
            }),
    {
        let mut packet = packet;
        proof {
            etherip::lemma_extends_nothing(to_wan@);
        }
        let frame: &[u8] = match packet.data() {
            Some(frame) => frame,
            None => {
                return Ok(());
            },
        };
        let i: usize = match tunnel_for_lan_frame(frame, &self.tunnels) {
            Some(i) => i,
            None => {
                return Ok(());
            },
        };
        assert(self@.tables[i as int] == self.mac_tables@[i as int]@);
        if self.mac_tables[i].contains_source_at(frame, now) {
            return Ok(());
        }
        if self.tunnels[i].vlan.is_some() {
            match strip_vlan_tag(&mut packet) {
                Ok(_) => {},
                Err(error) => {
                    return Err(error);
                },
            }
        }
        let mtu: usize = self.path_mtu[i] as usize;
        let id: u32 = self.frag_id;
        if takes_identification(&packet, mtu) {
            proof {
                assert(self@.takes_id(packet@, i as int));
            }
            self.frag_id = id.wrapping_add(1);
        } else {
            assert(!self@.takes_id(packet@, i as int));
        }
        let dpdk = Environment { config: self.config, available };
        encapsulate_packet_with(
            packet,
            &dpdk,
            &self.tunnels[i],
            mtu,
            self.wan_mac,
            id,
            to_wan,
        )
    }

    /// Takes a packet from the WAN; what it sends goes behind `to_wan` and `to_lan`. The pool can
    /// give `available` buffers.
    pub fn wan_packet(
        &mut self,
        packet: Packet,
        available: usize,
        to_wan: &mut Vec<Packet>,
        to_lan: &mut Vec<Packet>,
    ) -> (done: Result<(), Error>)
        requires
            old(self).wf(),
            packet@.wf(),
        ensures
            final(self).wf(),
            final(self).clock() == old(self).clock(),
            exists|now: u128|
                {
                    let (after, sent) = #[trigger] old(self)@.wan_outcome(
                        packet@,
                        available,
                        now as int,
                    );
                    &&& now <= clock::last_tick()
                    &&& final(self)@ == after
                    &&& etherip::answered(done, part(sent, true), old(to_wan)@, final(to_wan)@)
                    &&& etherip::answered(done, part(sent, false), old(to_lan)@, final(to_lan)@)
                },
    {
        let now = self.clock.nanos();
        self.wan_packet_at(packet, available, now, to_wan, to_lan)
    }

    /// Takes a packet that comes from the WAN at time `now`.
    pub fn wan_packet_at(
        &mut self,
        packet: Packet,
        available: usize,
        now: u128,
        to_wan: &mut Vec<Packet>,
        to_lan: &mut Vec<Packet>,
    ) -> (done: Result<(), Error>)
        requires
            old(self).wf(),
            packet@.wf(),
        ensures
            final(self).wf(),
            final(self).clock() == old(self).clock(),
            ({
                let (after, sent) = old(self)@.wan_outcome(packet@, available, now as int);
                &&& final(self)@ == after
                &&& etherip::answered(done, part(sent, true), old(to_wan)@, final(to_wan)@)
                &&& etherip::answered(done, part(sent, false), old(to_lan)@, final(to_lan)@)
            }),
    {
        proof {
            etherip::lemma_extends_nothing(to_wan@);
            etherip::lemma_extends_nothing(to_lan@);
        }
        let data: &[u8] = match packet.data() {
            Some(data) => data,
            None => {
                return Ok(());
            },
        };
        let dpdk = Environment { config: self.config, available };
        match ndp_advertisement(data, self.local_ipv6, self.wan_mac) {
            Some(reply) => {
                return match dpdk.packet(&reply) {
                    Ok(reply) => {
                        push_packet(to_wan, reply);
                        Ok(())
                    },
                    Err(error) => Err(error),
                };
            },
            None => {},
        }
        match tunnel_index_for_wan(data, &self.tunnels) {
            Some(i) => self.tunnel_packet(packet, i, available, now, to_lan),
            None => {
                self.hear_mtu(data);
                Ok(())
            },
        }
    }

    /// Takes a packet that comes from the far end of tunnel `i` at time `now`.
    fn tunnel_packet(
        &mut self,
        packet: Packet,
        i: usize,
        available: usize,
        now: u128,
        to_lan: &mut Vec<Packet>,
    ) -> (done: Result<(), Error>)
        requires
            old(self).wf(),
            packet@.wf(),
            i < old(self)@.tunnels.len(),
        ensures
            final(self).wf(),
            final(self).clock() == old(self).clock(),
            ({
                let (after, sent) = old(self)@.tunnel_outcome(
                    packet@,
                    i as int,
                    available,
                    now as int,
                );
                &&& final(self)@ == after
                &&& etherip::answered(done, part(sent, false), old(to_lan)@, final(to_lan)@)
                &&& sent matches Ok(sent) ==> sent.0 == Seq::<PacketModel>::empty()
            }),
    {
        proof {
            etherip::lemma_extends_nothing(to_lan@);
        }
        let dpdk = Environment { config: self.config, available };
        let result = decapsulate_packet_at(
            packet,
            &dpdk,
            &self.tunnels[i],
            &mut self.reassembly,
            now,
        );
        let ghost after = self@;
        assert(after == (BridgeModel { packets: self.reassembly@, ..old(self)@ }));
        let mut frame: Packet = match result {
            Ok(Some(frame)) => frame,
            Ok(None) => {
                return Ok(());
            },
            Err(error) => {
                return Err(error);
            },
        };
        match frame.data() {
            Some(data) => {
                self.mac_tables[i].learn_source_at(data, now);
                assert(self@.tables =~= after.tables.update(
                    i as int,
                    mac_table::learned(after.tables[i as int], data@, now as int),
                ));
            },
            None => {},
        }
        match self.tunnels[i].vlan {
            Some(vlan) => {
                if frame.len() < 12 && frame.tailroom() >= 4 {
                    return Err(Error::ShortFrame);
                }
                match add_vlan_tag(&mut frame, vlan) {
                    Ok(_) => {},
                    Err(error) => {
                        return Err(error);
                    },
                }
            },
            None => {},
        }
        push_packet(to_lan, frame);
        Ok(())
    }

    /// Lowers the MTU of a path on a Packet Too Big message.
    fn hear_mtu(&mut self, data: &[u8])
        requires
            old(self).wf(),
        ensures
            final(self).wf(),
            final(self).clock() == old(self).clock(),
            final(self)@ == if ndp::too_big(data@, old(self)@.local_ipv6) {
                old(self)@.told(data@)
            } else {
                old(self)@
            },
    {
        match icmpv6_packet_too_big(data, self.local_ipv6) {
            Some((told, remote)) => self.hear_mtu_of(told, &remote),
            None => {},
        }
    }

    fn hear_mtu_of(&mut self, told: u32, remote: &Ipv6Addr)
        requires
            old(self).wf(),
        ensures
            final(self).wf(),
            final(self).clock() == old(self).clock(),
            final(self)@ == match etherip::remote_tunnel(remote@, old(self)@.tunnels) {
                Some(i) => BridgeModel {
                    path_mtu: old(self)@.path_mtu.update(
                        i,
                        BridgeModel::lowered(old(self)@.path_mtu[i], told as int),
                    ),
                    ..old(self)@
                },
                None => old(self)@,
            },
            etherip::remote_tunnel(remote@, old(self)@.tunnels) matches Some(i) ==> {
                &&& final(self)@.path_mtu.len() == old(self)@.path_mtu.len()
                &&& final(self)@.path_mtu[i] == vstd::math::min(
                    old(self)@.path_mtu[i] as int,
                    vstd::math::max(told as int, 1280),
                )
            },
    {
        proof {
            etherip::remote_tunnel_in_range(remote@, self@.tunnels);
        }
        match tunnel_for_remote(remote, &self.tunnels) {
            Some(i) => {
                let wanted: u32 = if told < LEAST_MTU {
                    LEAST_MTU
                } else {
                    told
                };
                if wanted < self.path_mtu[i] {
                    self.path_mtu[i] = wanted;
                } else {
                    assert(self.path_mtu@.update(i as int, self.path_mtu@[i as int])
                        =~= self.path_mtu@);
                }
            },
            None => {},
        }
    }

    /// Looks for old addresses and fragments, if it is time to.
    pub fn expire(&mut self)
        requires
            old(self).wf(),
        ensures
            final(self).wf(),
            final(self).clock() == old(self).clock(),
            exists|now: u128|
                now <= clock::last_tick() && final(self)@ == #[trigger] old(self)@.aged(
                    now as int,
                ),
    {
        let now = self.clock.nanos();
        self.expire_at(now);
    }

    /// Looks for old addresses and fragments at time `now`, if it is time to.
    pub fn expire_at(&mut self, now: u128)
        requires
            old(self).wf(),
            now <= clock::last_tick(),
        ensures
            final(self).wf(),
            final(self).clock() == old(self).clock(),
            final(self)@ == old(self)@.aged(now as int),
    {
        if now < self.next_expiry {
            return;
        }
        let ghost before = self@;
        let mut i: usize = 0;
        while i < self.mac_tables.len()
            invariant
                self.wf(),
                self.clock() == old(self).clock(),
                now <= clock::last_tick(),
                i <= self.mac_tables@.len(),
                self.mac_tables@.len() == before.tables.len(),
                self@ == (BridgeModel { tables: self@.tables, ..before }),
                forall|k: int|
                    0 <= k < i ==> (#[trigger] self.mac_tables@[k])@ == mac_table::aged(
                        before.tables[k],
                        now as int,
                    ),
                forall|k: int|
                    i <= k < before.tables.len() ==> (#[trigger] self.mac_tables@[k])@
                        == before.tables[k],
            decreases self.mac_tables@.len() - i,
        {
            self.mac_tables[i].expire_at(now);
            i += 1;
        }
        self.reassembly.expire_at(now);
        self.next_expiry = now + EXPIRY_INTERVAL;
        assert(self@.tables =~= before.aged(now as int).tables);
    }
}

/// What is sent to one side: into the WAN or into the LAN.
pub open spec fn part(
    sent: Result<(Seq<PacketModel>, Seq<PacketModel>), Error>,
    into_wan: bool,
) -> Sending {
    match sent {
        Ok((wan, lan)) => Ok(
            if into_wan {
                wan
            } else {
                lan
            },
        ),
        Err(error) => etherip::failed(error),
    }
}

fn push_packet(packets: &mut Vec<Packet>, packet: Packet)
    requires
        packet@.wf(),
    ensures
        etherip::extends(old(packets)@, final(packets)@, seq![packet@]),
{
    packets.push(packet);
    assert(packets@.take(old(packets)@.len() as int) =~= old(packets)@);
    assert(etherip::models(packets@.skip(old(packets)@.len() as int)) =~= seq![packet@]);
}

/// Whether a frame has to be cut into fragments, and can be.
fn takes_identification(packet: &Packet, mtu: usize) -> (taken: bool)
    requires
        packet@.wf(),
    ensures
        taken == {
            &&& packet@.single()
            &&& packet@.data().len() + 42 > mtu
            &&& packet@.data().len() + 2 <= 65_535
            &&& mtu >= 56
        },
{
    match packet.data() {
        Some(frame) => (mtu < 42 || frame.len() > mtu - 42) && frame.len() <= 65_533 && mtu >= 56,
        None => false,
    }
}

impl BridgeModel {
    /// Everything but what the bridge learns stays as it is.
    proof fn lemma_after_keeps(self, event: Event)
        requires
            self.wf(),
        ensures
            self.after(event).wf(),
            self.after(event).config == self.config,
            self.after(event).tunnels == self.tunnels,
            self.after(event).wan_mac == self.wan_mac,
            self.after(event).local_ipv6 == self.local_ipv6,
    {
        if let Event::Wan(input) = event {
            let data = input.packet.data();
            etherip::remote_tunnel_in_range(data.subrange(22, 38), self.tunnels);
            etherip::remote_tunnel_in_range(ndp::told_destination(data), self.tunnels);
        }
    }

    /// Through any run of events the bridge keeps its tunnels, its addresses and its buffers.
    pub proof fn run_keeps(self, events: Seq<Event>)
        requires
            self.wf(),
        ensures
            self.run(events).wf(),
            self.run(events).config == self.config,
            self.run(events).tunnels == self.tunnels,
            self.run(events).wan_mac == self.wan_mac,
            self.run(events).local_ipv6 == self.local_ipv6,
        decreases events.len(),
    {
        if events.len() > 0 {
            self.run_keeps(events.drop_last());
            self.run(events.drop_last()).lemma_after_keeps(events.last());
        }
    }

    /// Through any run of events the packets that wait go through the steps that the events are.
    pub proof fn run_steps(self, events: Seq<Event>)
        requires
            self.wf(),
        ensures
            self.run(events).packets == reassembly::run(self.packets, self.steps(events)).0,
        decreases events.len(),
    {
        if events.len() > 0 {
            let last = events.len() - 1;
            let front = events.drop_last();
            self.run_steps(front);
            self.run_keeps(front);
            assert(events.take(last) =~= front);
            assert(self.steps(events).drop_last() =~= self.steps(front)) by {
                assert forall|n: int| 0 <= n < last implies events.take(n) == front.take(n) by {
                    assert(events.take(n) =~= front.take(n));
                }
            }
            assert(self.steps(events).last() == self.run(front).step(events[last]));
        }
    }

    /// What an event changes in the table of tunnel `i`.
    proof fn lemma_table_after(self, event: Event, i: int)
        requires
            self.wf(),
            0 <= i < self.tunnels.len(),
        ensures
            ({
                let before = self.tables[i].remote;
                let after = self.after(event).tables[i].remote;
                match event {
                    Event::Lan(_) => after == before,
                    Event::Wan(input) => after == match self.hears(event, i) {
                        Some(source) => before.insert(source, input.now),
                        None => before,
                    },
                    Event::Age(now) => after == before || after == mac_table::aged(
                        self.tables[i],
                        now,
                    ).remote,
                }
            }),
    {
        if let Event::Wan(input) = event {
            let found = etherip::wan_tunnel(input.packet.data(), self.tunnels);
            if found is Some {
                etherip::remote_tunnel_in_range(
                    input.packet.data().subrange(22, 38),
                    self.tunnels,
                );
            }
        }
    }

    proof fn lemma_remembered(
        self,
        events: Seq<Event>,
        k: int,
        i: int,
        source: Seq<u8>,
        now: int,
        n: int,
    )
        requires
            self.wf(),
            0 <= i < self.tunnels.len(),
            0 <= k < n <= events.len(),
            self.run(events.take(k)).hears(events[k], i) == Some(source),
            in_time(events, now),
            now - events[k].time() < MAC_AGE,
        ensures
            ({
                let remote = self.run(events.take(n)).tables[i].remote;
                remote.contains_key(source) && remote[source] >= events[k].time()
            }),
        decreases n,
    {
        let part = events.take(n);
        assert(part.drop_last() =~= events.take(n - 1));
        assert(part.last() == events[n - 1]);
        self.run_keeps(events.take(n - 1));
        self.run(events.take(n - 1)).lemma_table_after(events[n - 1], i);
        assert(events[k].time() <= events[n - 1].time() <= now);
        if n - 1 > k {
            self.lemma_remembered(events, k, i, source, now, n - 1);
        }
    }

    /// A frame whose source was heard in a tunnel does not go into that tunnel for as long as the
    /// source counts, whatever happens in between.
    pub proof fn reflections_are_dropped(
        self,
        events: Seq<Event>,
        k: int,
        i: int,
        source: Seq<u8>,
        returned: Input,
    )
        requires
            self.wf(),
            0 <= i < self.tunnels.len(),
            0 <= k < events.len(),
            self.run(events.take(k)).hears(events[k], i) == Some(source),
            in_time(events, returned.now),
            returned.now - events[k].time() < MAC_AGE,
            mac_table::source_spec(returned.packet.data()) == Some(source),
            etherip::lan_tunnel(returned.packet.data(), self.tunnels) == Some(i),
        ensures
            ({
                let after = self.run(events);
                after.lan_outcome(returned.packet, returned.available, returned.now) == (
                    after,
                    Ok::<Seq<PacketModel>, (Error, Seq<PacketModel>)>(Seq::empty()),
                )
            }),
    {
        self.lemma_remembered(events, k, i, source, returned.now, events.len() as int);
        assert(events.take(events.len() as int) =~= events);
        self.run_keeps(events);
    }

    proof fn lemma_last_heard(self, events: Seq<Event>, k: int, i: int, source: Seq<u8>, n: int)
        requires
            self.wf(),
            0 <= i < self.tunnels.len(),
            0 <= k < n <= events.len(),
            self.run(events.take(k)).hears(events[k], i) == Some(source),
            self.silent(events, k, i, source),
        ensures
            ({
                let remote = self.run(events.take(n)).tables[i].remote;
                remote.contains_key(source) ==> remote[source] == events[k].time()
            }),
        decreases n,
    {
        let part = events.take(n);
        assert(part.drop_last() =~= events.take(n - 1));
        assert(part.last() == events[n - 1]);
        self.run_keeps(events.take(n - 1));
        self.run(events.take(n - 1)).lemma_table_after(events[n - 1], i);
        if n - 1 > k {
            self.lemma_last_heard(events, k, i, source, n - 1);
            assert(self.run(events.take(n - 1)).hears(events[n - 1], i) != Some(source));
        }
    }

    /// A source that was last heard in a tunnel too long ago keeps no frame out of it, whatever
    /// happens in between.
    pub proof fn old_sources_are_forgotten(
        self,
        events: Seq<Event>,
        k: int,
        i: int,
        source: Seq<u8>,
        frame: Seq<u8>,
        now: int,
    )
        requires
            self.wf(),
            0 <= i < self.tunnels.len(),
            0 <= k < events.len(),
            self.run(events.take(k)).hears(events[k], i) == Some(source),
            self.silent(events, k, i, source),
            now - events[k].time() >= MAC_AGE,
            mac_table::source_spec(frame) == Some(source),
        ensures
            !mac_table::reflected(self.run(events).tables[i], frame, now),
    {
        self.lemma_last_heard(events, k, i, source, events.len() as int);
        assert(events.take(events.len() as int) =~= events);
    }

    /// A path never becomes wider than it was, and no message makes it narrower than IPv6
    /// allows.
    pub proof fn path_mtu_only_falls(mtu: u32, told: int)
        ensures
            Self::lowered(mtu, told) <= mtu,
            mtu >= LEAST_MTU ==> Self::lowered(mtu, told) >= LEAST_MTU,
            mtu < LEAST_MTU ==> Self::lowered(mtu, told) == mtu,
    {
    }

    /// Every Neighbor Solicitation for the address of the bridge is answered, if the pool can give
    /// a buffer and it can hold the answer.
    pub proof fn solicitations_are_answered(self, packet: PacketModel, available: usize, now: int)
        requires
            self.wf(),
            packet.single(),
            ndp::solicits(packet.data(), self.local_ipv6),
            available > 0,
            self.config.data_room_size >= dpdk::HEADROOM + 86,
        ensures
            self.wan_outcome(packet, available, now) matches (after, Ok((wan, lan))) && {
                &&& after == self
                &&& lan.len() == 0
                &&& wan.len() == 1
                &&& wan[0].data() == ndp::advertisement(
                    packet.data(),
                    self.local_ipv6,
                    self.wan_mac,
                )
                &&& ndp::intact(wan[0].data())
            },
    {
        let reply = ndp::advertisement(packet.data(), self.local_ipv6, self.wan_mac);
        ndp::advertisement_is_intact(packet.data(), self.local_ipv6, self.wan_mac);
        assert(reply.len() == 86);
        let made = dpdk::allocated(self.dpdk(available), reply)->Ok_0;
        assert(made.data() =~= reply);
    }

    /// What goes into the LAN came from the far end of a tunnel to the near one.
    pub proof fn only_tunnels_reach_the_lan(self, packet: PacketModel, available: usize, now: int)
        requires
            self.wan_outcome(packet, available, now).1 matches Ok((wan, lan)) && lan.len() > 0,
        ensures
            exists|i: int|
                0 <= i < self.tunnels.len() && etherip::outer_spec(
                    packet.data(),
                    #[trigger] self.tunnels[i],
                ) == Ok::<(), etherip::OuterError>(()),
    {
        let data = packet.data();
        let address = data.subrange(22, 38);
        etherip::remote_tunnel_in_range(address, self.tunnels);
        let i = etherip::remote_tunnel(address, self.tunnels)->0;
        assert(etherip::outer_spec(data, self.tunnels[i]) is Ok);
    }

    /// Looking for old addresses and fragments changes no later answer to a frame from the LAN.
    pub proof fn aging_changes_no_lan_answer(
        self,
        packet: PacketModel,
        available: usize,
        then: int,
        now: int,
    )
        requires
            self.wf(),
            then <= now,
        ensures
            self.aged(then).lan_outcome(packet, available, now).1 == self.lan_outcome(
                packet,
                available,
                now,
            ).1,
    {
        let frame = packet.data();
        if let Some(i) = etherip::lan_tunnel(frame, self.tunnels) {
            etherip::lan_tunnel_in_range(frame, self.tunnels);
            mac_table::aging_changes_no_answer(self.tables[i], frame, then, now);
        }
    }
}

impl BridgeModel {
    /// A message that tells `told` leaves a path exactly as wide as it was or as told, whichever
    /// is less, where anything below 1280 counts as 1280.
    pub proof fn lowered_exactly(mtu: u32, told: int)
        requires
            told >= 0,
        ensures
            Self::lowered(mtu, told) == vstd::math::min(mtu as int, vstd::math::max(told, 1280)),
            Self::lowered(mtu, told) == mtu || Self::lowered(mtu, told) == told || Self::lowered(
                mtu,
                told,
            ) == 1280,
            1280 <= told <= mtu ==> Self::lowered(mtu, told) == told,
            told < 1280 <= mtu ==> Self::lowered(mtu, told) == 1280,
            told >= mtu || mtu <= 1280 ==> Self::lowered(mtu, told) == mtu,
    {
    }
}

/// Each side is sent what is meant for it, and a failure sends nothing to either.
pub proof fn parts_are_faithful(sent: Result<(Seq<PacketModel>, Seq<PacketModel>), Error>)
    ensures
        sent matches Ok(packets) ==> {
            &&& part(sent, true) == Ok::<Seq<PacketModel>, (Error, Seq<PacketModel>)>(packets.0)
            &&& part(sent, false) == Ok::<Seq<PacketModel>, (Error, Seq<PacketModel>)>(packets.1)
        },
        sent matches Err(error) ==> {
            let nothing = Err::<Seq<PacketModel>, (Error, Seq<PacketModel>)>(
                (error, Seq::empty()),
            );
            part(sent, true) == nothing && part(sent, false) == nothing
        },
{
}

} // verus!
