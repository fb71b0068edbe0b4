# etherip

A point-to-point Ethernet bridge over IPv6. Frames from a LAN port travel as EtherIP (RFC 3378,
IP protocol 97) to the far end of a tunnel and come out in the LAN there. Packets that exceed the
IPv6 MTU of the path go in fragments and are put together again at the far end.

```text
LAN A - LAN port [ endpoint A ] WAN port == IPv6 == WAN port [ endpoint B ] LAN port - LAN B
```

The library holds the rules of the bridge and is verified with Verus: the functions
state what they return or change, and laws over these statements are proved beside them.

## Layout

| Path | Contents |
|---|---|
| `src/protocol.rs`, `src/bytes.rs`, `src/text.rs` | constants, fields in network order, numbers and words |
| `src/address.rs`, `src/config.rs`, `src/workers.rs` | addresses, options, tunnels, queues and workers |
| `src/dpdk.rs`, `src/port.rs`, `src/linkage.rs` | packet buffers, opening a port, linker flags |
| `src/etherip.rs` | choosing a tunnel, encapsulation, fragmentation, VLAN tags, decapsulation |
| `src/reassembly.rs` | joining fragments with bounded memory |
| `src/mac_table.rs` | learning source addresses so that frames do not loop |
| `src/ndp.rs` | Neighbor Discovery answers and Packet Too Big messages |
| `src/bridge.rs` | what the bridge does with each packet |
| `src/laws.rs` | what holds of the two ends of a tunnel together |
| `src/clock.rs`, `src/error.rs` | monotonic time, failures |
| `app/` | command line, DPDK calls, forwarding loop |
| `extras/shim.c` | C functions around DPDK's macros and inline functions |

## What is proved

- A frame that goes into a tunnel comes out at the far end as it went in, whole or in fragments,
  in whatever order the fragments arrive, with whatever padding the link puts behind a packet and
  whatever else arrives in between, and not before all of it has arrived
  (`laws::encapsulated_round_trip`, `laws::bridged_round_trip`).
- No packet that is sent exceeds the MTU of its path, and the MTU of a path only falls, to 1280
  bytes at the least (`laws::outer_packets_fit_the_mtu`, `BridgeModel::path_mtu_only_falls`).
- Overlapping fragments discard their packet; at most 1024 packets wait, each with at most 128
  fragments, for a minute after the last fragment.
- A frame is not sent into a tunnel for five minutes after its source was last heard there, and no
  longer, whatever happens in between (`BridgeModel::reflections_are_dropped`,
  `BridgeModel::old_sources_are_forgotten`).
- Only packets from the far end of a tunnel to its near end reach the LAN
  (`BridgeModel::only_tunnels_reach_the_lan`).
- Every sound Neighbor Solicitation for the local address is answered, with a valid checksum
  (`BridgeModel::solicitations_are_answered`).

## What is not stated

- The clock is trusted: `src/clock.rs` reads `std::time::Instant`, and nothing is said of when it
  was started or how much time has passed. Functions that read it say what holds at some time;
  each has a counterpart that takes the time and says exactly what happens.
- `fragment_packets` and `encapsulate_packet` take an identification from a shared counter and do
  not say which. Their counterparts take it as an argument, and the bridge has a counter of its
  own that is stated.
- How many packet buffers the pool can give is an argument; a call that finds none fails.

## Running

The program copies packets between DPDK's buffers and the library's on receive and on transmit.
It links DPDK and `extras/shim.c`; `linkage::sort_output` turns what
`pkg-config --cflags --libs libdpdk` prints into compiler flags and lines for Cargo.
