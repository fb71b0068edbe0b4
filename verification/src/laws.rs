//! What holds of the two ends of a tunnel together.

use crate::bridge::{BridgeModel, Event, Input};
use crate::bytes;
use crate::config;
use crate::config::{Config, Tunnel, TunnelSpec};
use crate::dpdk;
use crate::dpdk::PacketModel;
use crate::error::Error;
use crate::etherip;
use crate::mac_table;
use crate::ndp;
use crate::protocol::{ETHERIP_HEADER, ETHER_TYPE_IPV6, NEXT_ETHERIP, NEXT_FRAGMENT};
use crate::reassembly;
use crate::reassembly::{Arrival, Flow, Pending, Step};
use vstd::prelude::*;

verus! {

/// Whether two tunnels are the two ends of one: each sends to where the other is.
pub open spec fn ends(near: Tunnel, far: Tunnel) -> bool {
    near.local_ipv6@ == far.remote_ipv6@ && near.remote_ipv6@ == far.local_ipv6@
}

proof fn lemma_outer_fields(tunnel: Tunnel, mac: Seq<u8>, next: u8, length: int, payload: Seq<u8>)
    requires
        mac.len() == 6,
        0 <= length < 0x1_0000,
    ensures
        ({
            let packet = etherip::outer_header(tunnel, mac, next, length) + payload;
            &&& packet.len() == 54 + payload.len()
            &&& bytes::be16_spec(packet[12], packet[13]) == ETHER_TYPE_IPV6
            &&& packet[14] / 16 == 6
            &&& etherip::payload_length(packet) == length
            &&& packet[20] == next
            &&& packet.subrange(22, 38) == tunnel.local_ipv6@
            &&& packet.subrange(38, 54) == tunnel.remote_ipv6@
            &&& packet.skip(54) == payload
        }),
{
    let packet = etherip::outer_header(tunnel, mac, next, length) + payload;
    assert(tunnel.next_hop_mac@.len() == 6);
    assert(tunnel.local_ipv6@.len() == 16);
    assert(tunnel.remote_ipv6@.len() == 16);
    assert(packet.subrange(12, 14) =~= bytes::be16_bytes(ETHER_TYPE_IPV6 as int));
    assert(packet[12] == packet.subrange(12, 14)[0]);
    assert(packet[13] == packet.subrange(12, 14)[1]);
    assert(packet[14] == 0x60);
    bytes::be16_round_trip(length);
    assert(packet.subrange(18, 20) =~= bytes::be16_bytes(length));
    assert(packet[18] == packet.subrange(18, 20)[0]);
    assert(packet[19] == packet.subrange(18, 20)[1]);
    assert(packet.subrange(22, 38) =~= tunnel.local_ipv6@);
    assert(packet.subrange(38, 54) =~= tunnel.remote_ipv6@);
    assert(packet.skip(54) =~= payload);
}

/// Whether a packet arrives as it was sent, with or without padding that the link puts behind it.
pub open spec fn arrives_as(arrived: Seq<u8>, sent: Seq<u8>) -> bool {
    sent.len() <= arrived.len() && arrived.take(sent.len() as int) == sent
}

/// The far end accepts every packet that this end builds for the tunnel, and finds the payload in
/// it, whatever padding stands behind it.
pub proof fn own_packets_are_valid(
    near: Tunnel,
    far: Tunnel,
    mac: Seq<u8>,
    next: u8,
    payload: Seq<u8>,
    arrived: Seq<u8>,
)
    requires
        ends(near, far),
        mac.len() == 6,
        next == NEXT_ETHERIP || next == NEXT_FRAGMENT,
        payload.len() <= 65_535,
        arrives_as(arrived, etherip::ipv6_spec(near, mac, next, payload)),
    ensures
        etherip::outer_spec(arrived, far) == Ok::<(), etherip::OuterError>(()),
        etherip::outer_payload(arrived) == payload,
{
    lemma_arrived_fields(near, mac, next, payload, arrived);
}

proof fn lemma_arrived_fields(
    near: Tunnel,
    mac: Seq<u8>,
    next: u8,
    payload: Seq<u8>,
    arrived: Seq<u8>,
)
    requires
        mac.len() == 6,
        payload.len() <= 65_535,
        arrives_as(arrived, etherip::ipv6_spec(near, mac, next, payload)),
    ensures
        arrived.len() >= 54 + payload.len(),
        bytes::be16_spec(arrived[12], arrived[13]) == ETHER_TYPE_IPV6,
        arrived[14] / 16 == 6,
        etherip::payload_length(arrived) == payload.len(),
        arrived[20] == next,
        arrived.subrange(22, 38) == near.local_ipv6@,
        arrived.subrange(38, 54) == near.remote_ipv6@,
        etherip::outer_payload(arrived) == payload,
{
    let length = payload.len() as int;
    let header = etherip::outer_header(near, mac, next, length);
    let sent = etherip::ipv6_spec(near, mac, next, payload);
    lemma_outer_fields(near, mac, next, length, payload);
    lemma_outer_fields(near, mac, next, length, arrived.skip(54));
    assert(header.len() == 54) by {
        assert(sent.len() == 54 + payload.len());
    }
    assert(arrived =~= header + arrived.skip(54)) by {
        assert forall|k: int| 0 <= k < 54 implies arrived[k] == header[k] by {
            assert(arrived[k] == arrived.take(sent.len() as int)[k]);
            assert(sent[k] == header[k]);
        }
    }
    assert(etherip::outer_payload(arrived) =~= payload) by {
        assert forall|k: int| 0 <= k < length implies #[trigger] arrived[54 + k] == payload[k] by {
            assert(arrived[54 + k] == arrived.take(sent.len() as int)[54 + k]);
            assert(sent[54 + k] == payload[k]);
        }
    }
}

/// A frame within the MTU comes out of the far end as it went in.
pub proof fn whole_round_trip(
    packet: PacketModel,
    near_dpdk: dpdk::Environment,
    far_dpdk: dpdk::Environment,
    near: Tunnel,
    far: Tunnel,
    mtu: int,
    mac: Seq<u8>,
    id: u32,
    packets: Map<Flow, Pending>,
    now: int,
)
    requires
        ends(near, far),
        mac.len() == 6,
        packet.wf(),
        packet.single(),
        packet.first.offset >= 56,
        packet.data().len() + 42 <= mtu,
        packet.data().len() + 2 <= 65_535,
    ensures
        etherip::encapsulated(packet, near_dpdk, near, mtu, mac, id) matches Ok(sent) && {
            &&& sent.len() == 1
            &&& etherip::decapsulated(sent[0], far_dpdk, far, packets, now) matches (after, Ok(Some(frame)))
                && after == packets && frame.data() == packet.data()
        },
{
    let frame = packet.data();
    let header = etherip::outer_header(near, mac, NEXT_ETHERIP, (frame.len() + 2) as int)
        + ETHERIP_HEADER@;
    let sent = packet.with_first(packet.first.prepended(header));
    assert(header.len() == 56);
    assert(sent.data() =~= header + frame);
    let payload = ETHERIP_HEADER@ + frame;
    lemma_outer_fields(near, mac, NEXT_ETHERIP, (frame.len() + 2) as int, payload);
    assert(sent.data() =~= etherip::outer_header(near, mac, NEXT_ETHERIP, (frame.len() + 2) as int)
        + payload);
    assert(etherip::outer_payload(sent.data()) =~= payload);
    assert(etherip::etherip_spec(payload) is Some);
    assert(etherip::unwrapped(sent).data() =~= frame);
}

/// Where pieces of at most `chunk` bytes divide a payload.
pub open spec fn chunk_cuts(length: int, chunk: int) -> Seq<int> {
    Seq::new(
        (etherip::chunk_count(length, chunk) + 1) as nat,
        |i: int|
            if i * chunk < length {
                i * chunk
            } else {
                length
            },
    )
}

proof fn lemma_chunk_cuts(payload: Seq<u8>, chunk: int)
    requires
        chunk > 0,
        chunk % 8 == 0,
        payload.len() > 0,
    ensures
        reassembly::divides(chunk_cuts(payload.len() as int, chunk), payload),
        forall|i: int|
            0 <= i < etherip::chunk_count(payload.len() as int, chunk) ==> {
                &&& #[trigger] chunk_cuts(payload.len() as int, chunk)[i] == i * chunk
                &&& chunk_cuts(payload.len() as int, chunk)[i + 1] == etherip::chunk_end(
                    payload.len() as int,
                    chunk,
                    i,
                )
            },
{
    let length = payload.len() as int;
    let count = etherip::chunk_count(length, chunk);
    let cuts = chunk_cuts(length, chunk);
    assert(count > 0) by (nonlinear_arith)
        requires
            count == (length + chunk - 1) / chunk,
            length > 0,
            chunk > 0,
    ;
    assert(0 * chunk == 0);
    assert forall|i: int| 0 <= i < count implies {
        &&& #[trigger] cuts[i] == i * chunk
        &&& cuts[i + 1] == etherip::chunk_end(length, chunk, i)
    } by {
        etherip::lemma_chunk_range(length, chunk, i);
    }
    assert(cuts.last() == length) by {
        etherip::lemma_chunk_range(length, chunk, count - 1);
        assert(cuts[count - 1] == (count - 1) * chunk);
    }
    assert forall|i: int, j: int| 0 <= i < j < cuts.len() implies #[trigger] cuts[i]
        < #[trigger] cuts[j] by {
        etherip::lemma_chunk_range(length, chunk, i);
        if j < count {
            etherip::lemma_chunk_range(length, chunk, j);
            assert(i * chunk < j * chunk) by (nonlinear_arith)
                requires
                    i < j,
                    chunk > 0,
            ;
        }
    }
    assert forall|i: int| 0 <= i < cuts.len() - 2 implies (#[trigger] reassembly::cut_bytes(
        cuts,
        payload,
        i,
    )).len() % 8 == 0 by {
        etherip::lemma_chunk_range(length, chunk, i);
        assert((i + 1) * chunk == i * chunk + chunk) by (nonlinear_arith);
        assert(cuts[i] == i * chunk);
        assert(cuts[i + 1] == (i + 1) * chunk);
    }
}

/// Packet buffers of which the pool can give `available`.
pub open spec fn pool(config: dpdk::MempoolConfig, available: usize) -> dpdk::Environment {
    dpdk::Environment { config, available }
}

/// What comes of outer packets that arrive one after the other: the packets that wait for
/// fragments and the answer to the last arrival.
pub open spec fn received(
    inputs: Seq<Input>,
    config: dpdk::MempoolConfig,
    tunnel: Tunnel,
    packets: Map<Flow, Pending>,
) -> etherip::Decapsulated
    decreases inputs.len(),
{
    if inputs.len() == 0 {
        (packets, Ok(None))
    } else {
        let last = inputs.last();
        etherip::decapsulated(
            last.packet,
            pool(config, last.available),
            tunnel,
            received(inputs.drop_last(), config, tunnel, packets).0,
            last.now,
        )
    }
}

/// What an outer packet is for the packets that wait.
pub open spec fn as_step(tunnel: Tunnel) -> spec_fn(Input) -> Step {
    |input: Input|
        match etherip::fragment_in(input.packet, tunnel, input.now) {
            Some(fragment) => Step::Arrives(fragment),
            None => Step::Passes,
        }
}

/// Whether an outer packet adds a fragment to the packet under `key`.
pub open spec fn of_flow(tunnel: Tunnel, key: Flow) -> spec_fn(Input) -> bool {
    |input: Input| reassembly::is_of(key)(as_step(tunnel)(input))
}

/// The packets that arrive.
pub open spec fn packets_of(inputs: Seq<Input>) -> Seq<PacketModel> {
    inputs.map_values(|input: Input| input.packet)
}

/// The packets that wait go through the steps that the outer packets are.
proof fn lemma_received_steps(
    inputs: Seq<Input>,
    config: dpdk::MempoolConfig,
    tunnel: Tunnel,
    packets: Map<Flow, Pending>,
)
    ensures
        ({
            let (after, whole) = reassembly::run(packets, inputs.map_values(as_step(tunnel)));
            let result = received(inputs, config, tunnel, packets);
            &&& result.0 == after
            &&& inputs.len() > 0 && as_step(tunnel)(inputs.last()) is Arrives ==> result.1
                == etherip::reassembled(pool(config, inputs.last().available), whole)
        }),
    decreases inputs.len(),
{
    if inputs.len() > 0 {
        let front = inputs.drop_last();
        lemma_received_steps(front, config, tunnel, packets);
        let steps = inputs.map_values(as_step(tunnel));
        assert(steps.drop_last() =~= front.map_values(as_step(tunnel)));
        assert(steps.last() == as_step(tunnel)(inputs.last()));
    }
}

/// Items that pass a test stand for the steps that pass theirs.
proof fn lemma_filter_match<A>(
    items: Seq<A>,
    steps: Seq<Step>,
    item_test: spec_fn(A) -> bool,
    step_test: spec_fn(Step) -> bool,
    stands_for: spec_fn(A) -> Step,
)
    requires
        items.len() == steps.len(),
        forall|n: int|
            0 <= n < items.len() ==> item_test(#[trigger] items[n]) == step_test(steps[n]) && (
            item_test(items[n]) ==> stands_for(items[n]) == steps[n]),
    ensures
        items.filter(item_test).map_values(stands_for) == steps.filter(step_test),
    decreases items.len(),
{
    reveal(Seq::filter);
    if items.len() > 0 {
        let front = items.drop_last();
        assert forall|n: int| 0 <= n < front.len() implies item_test(#[trigger] front[n])
            == step_test(steps.drop_last()[n]) && (item_test(front[n]) ==> stands_for(front[n])
            == steps.drop_last()[n]) by {
            assert(front[n] == items[n]);
        }
        lemma_filter_match(front, steps.drop_last(), item_test, step_test, stands_for);
        let last = items.len() - 1;
        assert(item_test(items[last]) == step_test(steps[last]));
    }
    assert(items.filter(item_test).map_values(stands_for) =~= steps.filter(step_test));
}

proof fn lemma_fragment_fields(start: int, more: int, id: u32, data: Seq<u8>)
    requires
        0 <= start < 65_535,
        start % 8 == 0,
        more == 0 || more == 1,
    ensures
        ({
            let body = seq![NEXT_ETHERIP, 0u8] + bytes::be16_bytes(start + more)
                + bytes::be32_bytes(id as int) + data;
            let field = bytes::be16_spec(body[2], body[3]);
            &&& body.len() == 8 + data.len()
            &&& etherip::is_fragment(body)
            &&& field / 8 * 8 == start
            &&& (field % 2 == 1) == (more == 1)
            &&& bytes::be32_spec(body.subrange(4, 8)) == id
            &&& body.skip(8) == data
        }),
{
    let field = start + more;
    let body = seq![NEXT_ETHERIP, 0u8] + bytes::be16_bytes(field) + bytes::be32_bytes(id as int)
        + data;
    assert(body.subrange(2, 4) =~= bytes::be16_bytes(field));
    assert(body[2] == body.subrange(2, 4)[0] && body[3] == body.subrange(2, 4)[1]);
    bytes::be16_round_trip(field);
    assert(body.subrange(4, 8) =~= bytes::be32_bytes(id as int));
    bytes::be32_round_trip(id as int);
    assert(body.skip(8) =~= data);
}

proof fn lemma_fragment_body(payload: Seq<u8>, chunk: int, id: u32, i: int)
    requires
        0 < chunk <= 65_520,
        chunk % 8 == 0,
        0 < payload.len() <= 65_535,
        0 <= i < etherip::chunk_count(payload.len() as int, chunk),
    ensures
        ({
            let cuts = chunk_cuts(payload.len() as int, chunk);
            let body = etherip::fragment_body(payload, chunk, id, i);
            let field = bytes::be16_spec(body[2], body[3]);
            &&& body.len() <= 65_535
            &&& etherip::is_fragment(body)
            &&& field / 8 * 8 == cuts[i]
            &&& (field % 2 == 1) == (i < cuts.len() - 2)
            &&& bytes::be32_spec(body.subrange(4, 8)) == id
            &&& body.skip(8) == reassembly::cut_bytes(cuts, payload, i)
        }),
{
    let length = payload.len() as int;
    let cuts = chunk_cuts(length, chunk);
    let body = etherip::fragment_body(payload, chunk, id, i);
    let start = i * chunk;
    let end = etherip::chunk_end(length, chunk, i);
    let more: int = if end < length {
        1
    } else {
        0
    };
    lemma_chunk_cuts(payload, chunk);
    etherip::lemma_chunk_range(length, chunk, i);
    assert(cuts[i] == start && cuts[i + 1] == end);
    assert(start % 8 == 0) by {
        let eighth = chunk / 8;
        assert(i * chunk == 8 * (i * eighth)) by (nonlinear_arith)
            requires
                chunk == 8 * eighth,
        ;
    }
    lemma_fragment_fields(start, more, id, payload.subrange(start, end));
    assert((end < length) <==> (i < cuts.len() - 2));
}

/// What the far end sees in a fragment.
proof fn lemma_fragment_seen(
    packet: PacketModel,
    near: Tunnel,
    far: Tunnel,
    mac: Seq<u8>,
    payload: Seq<u8>,
    chunk: int,
    id: u32,
    i: int,
    now: int,
)
    requires
        ends(near, far),
        mac.len() == 6,
        0 < chunk <= 65_520,
        chunk % 8 == 0,
        0 < payload.len() <= 65_535,
        0 <= i < etherip::chunk_count(payload.len() as int, chunk),
        packet.single(),
        arrives_as(
            packet.data(),
            etherip::ipv6_spec(
                near,
                mac,
                NEXT_FRAGMENT,
                etherip::fragment_body(payload, chunk, id, i),
            ),
        ),
    ensures
        ({
            let cuts = chunk_cuts(payload.len() as int, chunk);
            etherip::fragment_in(packet, far, now) == Some(
                Arrival {
                    key: (near.local_ipv6@, near.remote_ipv6@, id),
                    offset: cuts[i],
                    more: i < cuts.len() - 2,
                    data: reassembly::cut_bytes(cuts, payload, i),
                    now,
                },
            )
        }),
{
    let body = etherip::fragment_body(payload, chunk, id, i);
    lemma_fragment_body(payload, chunk, id, i);
    own_packets_are_valid(near, far, mac, NEXT_FRAGMENT, body, packet.data());
    lemma_arrived_fields(near, mac, NEXT_FRAGMENT, body, packet.data());
}

/// The fragments of a frame put it together, whatever other steps stand between them.
proof fn lemma_frame_joined(
    frame: Seq<u8>,
    near: Tunnel,
    far: Tunnel,
    mtu: int,
    mac: Seq<u8>,
    id: u32,
    own: Seq<Input>,
    order: Seq<int>,
    packets: Map<Flow, Pending>,
    steps: Seq<Step>,
)
    requires
        ends(near, far),
        mac.len() == 6,
        mtu <= 65_575,
        own.len() == order.len(),
        fragments_arrive(frame, near, mtu, mac, id, packets_of(own), order),
        order.no_duplicates(),
        order.len() == etherip::fragments_spec(frame, near, mtu, mac, id)->Ok_0.len(),
        order.len() <= reassembly::MAX_FRAGMENTS,
        ({
            let key = (near.local_ipv6@, near.remote_ipv6@, id);
            &&& !packets.contains_key(key)
            &&& reassembly::undisturbed(packets, key, steps)
            &&& steps.filter(reassembly::is_of(key)) == own.map_values(as_step(far))
            &&& steps.len() > 0
            &&& reassembly::is_of(key)(steps.last())
        }),
    ensures
        ({
            let key = (near.local_ipv6@, near.remote_ipv6@, id);
            &&& reassembly::run(packets, steps).1 == Some(etherip::etherip_frame(frame))
            &&& !reassembly::run(packets, steps).0.contains_key(key)
            &&& forall|n: int|
                0 <= n < steps.len() - 1 && reassembly::is_of(key)(steps[n]) ==> (
                #[trigger] reassembly::run(packets, steps.take(n + 1))).1 is None
        }),
{
    let key = (near.local_ipv6@, near.remote_ipv6@, id);
    let payload = etherip::etherip_frame(frame);
    let chunk = etherip::chunk_size(mtu);
    let cuts = chunk_cuts(payload.len() as int, chunk);
    let arrived = packets_of(own);
    lemma_fragment_count(frame, near, mtu, mac, id, arrived, order);
    let steps_own = own.map_values(as_step(far));
    assert forall|k: int| 0 <= k < steps_own.len() implies reassembly::is_piece(
        #[trigger] steps_own[k],
        key,
        payload,
        cuts,
        order[k],
    ) by {
        lemma_arrived_fragment(frame, near, mtu, mac, id, arrived, order, k);
        assert(arrived[k] == own[k].packet);
        lemma_fragment_seen(
            own[k].packet,
            near,
            far,
            mac,
            payload,
            chunk,
            id,
            order[k],
            own[k].now,
        );
    }
    reassembly::delivered_among_others(packets, key, payload, cuts, order, steps);
}

proof fn lemma_arrived_fragment(
    frame: Seq<u8>,
    tunnel: Tunnel,
    mtu: int,
    mac: Seq<u8>,
    id: u32,
    arrived: Seq<PacketModel>,
    order: Seq<int>,
    k: int,
)
    requires
        56 <= mtu <= 65_575,
        fragments_arrive(frame, tunnel, mtu, mac, id, arrived, order),
        0 <= k < order.len(),
    ensures
        ({
            let payload = etherip::etherip_frame(frame);
            let chunk = etherip::chunk_size(mtu);
            &&& 0 < chunk <= 65_520
            &&& chunk % 8 == 0
            &&& payload.len() == frame.len() + 2
            &&& 0 <= order[k] < etherip::chunk_count(payload.len() as int, chunk)
            &&& arrived[k].single()
            &&& arrives_as(
                arrived[k].data(),
                etherip::ipv6_spec(
                    tunnel,
                    mac,
                    NEXT_FRAGMENT,
                    etherip::fragment_body(payload, chunk, id, order[k]),
                ),
            )
        }),
{
    let fragments = etherip::fragments_spec(frame, tunnel, mtu, mac, id)->Ok_0;
    assert(0 <= order[k] < fragments.len());
}

/// Whether `arrived` are fragments of a frame, with or without padding, in the order in which
/// `order` counts them.
pub open spec fn fragments_arrive(
    frame: Seq<u8>,
    tunnel: Tunnel,
    mtu: int,
    mac: Seq<u8>,
    id: u32,
    arrived: Seq<PacketModel>,
    order: Seq<int>,
) -> bool {
    etherip::fragments_spec(frame, tunnel, mtu, mac, id) matches Ok(fragments) && forall|k: int|
        0 <= k < order.len() ==> {
            &&& 0 <= #[trigger] order[k] < fragments.len()
            &&& arrived[k].single()
            &&& arrives_as(arrived[k].data(), fragments[order[k]])
        }
}

proof fn lemma_fragment_count(
    frame: Seq<u8>,
    tunnel: Tunnel,
    mtu: int,
    mac: Seq<u8>,
    id: u32,
    arrived: Seq<PacketModel>,
    order: Seq<int>,
)
    requires
        fragments_arrive(frame, tunnel, mtu, mac, id, arrived, order),
        order.len() == etherip::fragments_spec(frame, tunnel, mtu, mac, id)->Ok_0.len(),
    ensures
        mtu >= 56,
        frame.len() + 2 <= 65_535,
        ({
            let payload = etherip::etherip_frame(frame);
            let cuts = chunk_cuts(payload.len() as int, etherip::chunk_size(mtu));
            &&& reassembly::divides(cuts, payload)
            &&& cuts.len() - 1 == order.len()
            &&& forall|i: int| 0 <= i < order.len() ==> 0 <= #[trigger] order[i] < cuts.len() - 1
        }),
{
    let payload = etherip::etherip_frame(frame);
    assert(payload.len() == frame.len() + 2);
    lemma_chunk_cuts(payload, etherip::chunk_size(mtu));
}

proof fn lemma_reassembled(dpdk: dpdk::Environment, frame: Seq<u8>)
    requires
        dpdk::allocated(dpdk, frame) is Ok,
    ensures
        etherip::reassembled(dpdk, Some(etherip::etherip_frame(frame))) == Ok::<
            Option<PacketModel>,
            Error,
        >(Some(dpdk::allocated(dpdk, frame)->Ok_0)),
        (dpdk::allocated(dpdk, frame)->Ok_0).data() == frame,
{
    let payload = etherip::etherip_frame(frame);
    assert(payload.skip(2) =~= frame);
    let packet = dpdk::allocated(dpdk, frame)->Ok_0;
    assert(packet.data() =~= frame);
}

/// A frame that goes in fragments comes out of the far end as it went in, whatever the order in
/// which the fragments arrive and whatever other packets arrive between them: no fragment but the
/// last brings anything, the last brings the frame, and nothing is left behind. The far end must
/// have room for one more packet, the frame must not need more fragments than a packet may have,
/// and there must be a buffer that holds it when the last arrives.
pub proof fn fragmented_round_trip(
    frame: Seq<u8>,
    near: Tunnel,
    far: Tunnel,
    mtu: int,
    mac: Seq<u8>,
    id: u32,
    inputs: Seq<Input>,
    order: Seq<int>,
    config: dpdk::MempoolConfig,
    packets: Map<Flow, Pending>,
)
    requires
        ends(near, far),
        mac.len() == 6,
        mtu <= 65_575,
        inputs.len() > 0,
        ({
            let key = (near.local_ipv6@, near.remote_ipv6@, id);
            let own = inputs.filter(of_flow(far, key));
            &&& own.len() == order.len()
            &&& fragments_arrive(frame, near, mtu, mac, id, packets_of(own), order)
            &&& of_flow(far, key)(inputs.last())
            &&& !packets.contains_key(key)
            &&& reassembly::undisturbed(packets, key, inputs.map_values(as_step(far)))
        }),
        order.no_duplicates(),
        order.len() == etherip::fragments_spec(frame, near, mtu, mac, id)->Ok_0.len(),
        order.len() <= reassembly::MAX_FRAGMENTS,
        dpdk::allocated(pool(config, inputs.last().available), frame) is Ok,
    ensures
        received(inputs, config, far, packets).1 == Ok::<Option<PacketModel>, Error>(
            Some(dpdk::allocated(pool(config, inputs.last().available), frame)->Ok_0),
        ),
        (dpdk::allocated(pool(config, inputs.last().available), frame)->Ok_0).data() == frame,
        ({
            let key = (near.local_ipv6@, near.remote_ipv6@, id);
            &&& !received(inputs, config, far, packets).0.contains_key(key)
            &&& forall|n: int|
                0 <= n < inputs.len() - 1 && of_flow(far, key)(inputs[n]) ==> (
                #[trigger] received(inputs.take(n + 1), config, far, packets)).1 == Ok::<
                    Option<PacketModel>,
                    Error,
                >(None)
        }),
{
    let key = (near.local_ipv6@, near.remote_ipv6@, id);
    let own = inputs.filter(of_flow(far, key));
    let steps = inputs.map_values(as_step(far));
    lemma_filter_match(
        inputs,
        steps,
        of_flow(far, key),
        reassembly::is_of(key),
        as_step(far),
    );
    assert(steps.last() == as_step(far)(inputs.last()));
    lemma_frame_joined(frame, near, far, mtu, mac, id, own, order, packets, steps);
    lemma_received_steps(inputs, config, far, packets);
    lemma_reassembled(pool(config, inputs.last().available), frame);
    assert forall|n: int| 0 <= n < inputs.len() - 1 && of_flow(far, key)(inputs[n]) implies (
    #[trigger] received(inputs.take(n + 1), config, far, packets)).1 == Ok::<
        Option<PacketModel>,
        Error,
    >(None) by {
        let part = inputs.take(n + 1);
        lemma_received_steps(part, config, far, packets);
        assert(part.map_values(as_step(far)) =~= steps.take(n + 1));
        assert(part.last() == inputs[n]);
        assert(reassembly::is_of(key)(steps[n]));
        assert(reassembly::run(packets, steps.take(n + 1)).1 is None);
    }
}

/// A frame that is tagged is in the VLAN of the tag, of which twelve bits count, and gives up the
/// tag unchanged.
pub proof fn tag_round_trip(frame: Seq<u8>, vlan: u16)
    requires
        frame.len() >= 12,
    ensures
        etherip::vlan_spec(etherip::tagged(frame, vlan)) == Some((vlan % 4096) as u16),
        etherip::untagged(etherip::tagged(frame, vlan)) == frame,
{
    let tagged = etherip::tagged(frame, vlan);
    bytes::be16_round_trip(vlan as int);
    assert(tagged[12] == 0x81 && tagged[13] == 0);
    assert(tagged.subrange(14, 16) =~= bytes::be16_bytes(vlan as int));
    assert(tagged[14] == tagged.subrange(14, 16)[0] && tagged[15] == tagged.subrange(14, 16)[1]);
    assert(etherip::untagged(tagged) =~= frame);
}

/// A frame from the LAN without the tag that selects its tunnel.
pub open spec fn untagged_for(frame: Seq<u8>, tunnel: Tunnel) -> Seq<u8> {
    if tunnel.vlan is Some {
        etherip::untagged(frame)
    } else {
        frame
    }
}

/// A frame for the LAN with the tag that stands for its tunnel.
pub open spec fn tagged_for(frame: Seq<u8>, tunnel: Tunnel) -> Seq<u8> {
    match tunnel.vlan {
        Some(vlan) => etherip::tagged(frame, vlan),
        None => frame,
    }
}

/// The frame that the far LAN gets of one from the near LAN: without the tag that selected the
/// tunnel there, and with the tag that stands for the tunnel here.
pub open spec fn bridged(frame: Seq<u8>, near: Tunnel, far: Tunnel) -> Seq<u8> {
    tagged_for(untagged_for(frame, near), far)
}

/// A frame from the LAN that has a tunnel, was not seen in it and fits into the MTU of its path
/// goes into the WAN in one packet, if its buffer has room for the outer headers.
pub proof fn fitting_frames_are_sent(near: BridgeModel, packet: PacketModel, i: int, available: usize, then: int)
    requires
        near.wf(),
        0 <= i < near.tunnels.len(),
        packet.wf(),
        packet.single(),
        packet.first.offset >= 56,
        packet.data().len() >= 16,
        etherip::lan_tunnel(packet.data(), near.tunnels) == Some(i),
        near.tunnels[i].vlan is Some ==> etherip::vlan_spec(packet.data()) is Some,
        !mac_table::reflected(near.tables[i], packet.data(), then),
        packet.data().len() + 42 <= near.path_mtu[i],
        packet.data().len() + 2 <= 65_535,
    ensures
        near.lan_outcome(packet, available, then).1 matches Ok(sent) && {
            &&& sent.len() == 1
            &&& sent[0].data() == etherip::ipv6_spec(
                near.tunnels[i],
                near.wan_mac,
                NEXT_ETHERIP,
                etherip::etherip_frame(untagged_for(packet.data(), near.tunnels[i])),
            )
        },
{
    let tunnel = near.tunnels[i];
    let inner = untagged_for(packet.data(), tunnel);
    let prepared = near.prepared(packet, i)->Ok_0;
    assert(prepared.data() =~= inner);
    let header = etherip::outer_header(
        tunnel,
        near.wan_mac,
        NEXT_ETHERIP,
        (inner.len() + 2) as int,
    );
    let sent = prepared.with_first(prepared.first.prepended(header + ETHERIP_HEADER@));
    assert(header.len() == 54);
    assert(sent.data() =~= header + etherip::etherip_frame(inner));
}

/// Where every tunnel has a VLAN of its own, each frame that is tagged for one of them goes into
/// it, and no other frame goes into any.
pub proof fn vlans_select_their_tunnels(
    config: Config,
    tunnels: Seq<Tunnel>,
    frame: Seq<u8>,
    i: int,
)
    requires
        config.tunnels@.len() > 0,
        forall|k: int| 0 <= k < config.tunnels@.len() ==> !config::repeats(config.tunnels@, k),
        tunnels == config.tunnels@.map_values(|spec: TunnelSpec| config::resolved(config, spec)),
        0 <= i < tunnels.len(),
    ensures
        etherip::vlan_spec(frame) == Some(config.tunnels@[i].vlan) <==> etherip::lan_tunnel(
            frame,
            tunnels,
        ) == Some(i),
{
    etherip::lan_tunnel_in_range(frame, tunnels);
    if let Some(found) = etherip::lan_tunnel(frame, tunnels) {
        assert(tunnels[found] == config::resolved(config, config.tunnels@[found]));
    }
    assert(tunnels[i] == config::resolved(config, config.tunnels@[i]));
    assert(tunnels[0] == config::resolved(config, config.tunnels@[0]));
    if etherip::vlan_spec(frame) == Some(config.tunnels@[i].vlan) {
        etherip::lan_tunnel_exists(frame, tunnels, i);
        let found = etherip::lan_tunnel(frame, tunnels)->0;
        if found < i {
            assert(config.tunnels@[found].vlan == config.tunnels@[i].vlan);
            assert(config::repeats(config.tunnels@, i));
        } else if i < found {
            assert(config.tunnels@[i].vlan == config.tunnels@[found].vlan);
            assert(config::repeats(config.tunnels@, found));
        }
    }
}

/// The tunnel without a VLAN takes every frame.
pub proof fn single_tunnel_takes_every_frame(config: Config, tunnels: Seq<Tunnel>, frame: Seq<u8>)
    requires
        tunnels.len() == 1,
        config::single_tunnel(config) == Ok::<Tunnel, Error>(tunnels[0]),
    ensures
        etherip::lan_tunnel(frame, tunnels) == Some(0int),
{
}

/// Every fragment but the last carries the same number of bytes, a multiple of eight, and the
/// last carries no more; with its IPv6 header no fragment is longer than the MTU.
pub proof fn fragments_fit_the_mtu(frame: Seq<u8>, tunnel: Tunnel, mtu: int, mac: Seq<u8>, id: u32)
    requires
        mac.len() == 6,
    ensures
        etherip::chunk_size(mtu) % 8 == 0,
        etherip::fragments_spec(frame, tunnel, mtu, mac, id) matches Ok(fragments) ==> {
            &&& fragments.len() > 0
            &&& forall|i: int|
                0 <= i < fragments.len() ==> {
                    &&& 62 < (#[trigger] fragments[i]).len() <= 62 + etherip::chunk_size(mtu)
                    &&& i < fragments.len() - 1 ==> fragments[i].len() == 62
                        + etherip::chunk_size(mtu)
                    &&& fragments[i].len() <= 14 + mtu
                }
        },
{
    if let Ok(fragments) = etherip::fragments_spec(frame, tunnel, mtu, mac, id) {
        let payload = etherip::etherip_frame(frame);
        let length = payload.len() as int;
        let chunk = etherip::chunk_size(mtu);
        let count = etherip::chunk_count(length, chunk);
        assert(length >= 2);
        assert(count > 0) by (nonlinear_arith)
            requires
                count == (length + chunk - 1) / chunk,
                length > 0,
                chunk > 0,
        ;
        assert forall|i: int| 0 <= i < fragments.len() implies {
            &&& 62 < (#[trigger] fragments[i]).len() <= 62 + chunk
            &&& i < fragments.len() - 1 ==> fragments[i].len() == 62 + chunk
            &&& fragments[i].len() <= 14 + mtu
        } by {
            lemma_fragment_length(payload, tunnel, chunk, mac, id, i);
        }
    }
}

proof fn lemma_fragment_length(
    payload: Seq<u8>,
    tunnel: Tunnel,
    chunk: int,
    mac: Seq<u8>,
    id: u32,
    i: int,
)
    requires
        mac.len() == 6,
        chunk > 0,
        payload.len() > 0,
        0 <= i < etherip::chunk_count(payload.len() as int, chunk),
    ensures
        ({
            let count = etherip::chunk_count(payload.len() as int, chunk);
            let body = etherip::fragment_body(payload, chunk, id, i);
            let packet = etherip::ipv6_spec(tunnel, mac, NEXT_FRAGMENT, body);
            &&& 62 < packet.len() <= 62 + chunk
            &&& i < count - 1 ==> packet.len() == 62 + chunk
        }),
{
    let length = payload.len() as int;
    etherip::lemma_chunk_range(length, chunk, i);
    let body = etherip::fragment_body(payload, chunk, id, i);
    assert(body.len() == 8 + etherip::chunk_end(length, chunk, i) - i * chunk);
    assert((i + 1) * chunk == i * chunk + chunk) by (nonlinear_arith);
}

/// No packet that a frame becomes is longer than the MTU, behind its Ethernet header.
pub proof fn outer_packets_fit_the_mtu(
    packet: PacketModel,
    dpdk: dpdk::Environment,
    tunnel: Tunnel,
    mtu: int,
    mac: Seq<u8>,
    id: u32,
)
    requires
        mac.len() == 6,
        packet.wf(),
    ensures
        etherip::encapsulated(packet, dpdk, tunnel, mtu, mac, id) matches Ok(sent) ==> forall|
            i: int,
        |
            0 <= i < sent.len() ==> (#[trigger] sent[i]).data().len() <= 14 + mtu,
{
    let frame = packet.data();
    fragments_fit_the_mtu(frame, tunnel, mtu, mac, id);
    if let Ok(sent) = etherip::encapsulated(packet, dpdk, tunnel, mtu, mac, id) {
        if frame.len() + 42 > mtu {
            lemma_sent_fragments(packet, dpdk, tunnel, mtu, mac, id);
        }
    }
}

/// Buffers that could all be had hold the packets.
proof fn lemma_allocated(dpdk: dpdk::Environment, packets: Seq<Seq<u8>>)
    requires
        etherip::all_allocated(dpdk, packets) is Ok,
    ensures
        etherip::all_allocated(dpdk, packets) matches Ok(made) && made.len() == packets.len()
            && forall|i: int| 0 <= i < made.len() ==> (#[trigger] made[i]).data() == packets[i],
    decreases packets.len(),
{
    if packets.len() > 0 {
        let front = packets.drop_last();
        lemma_allocated(dpdk, front);
        let made = etherip::all_allocated(dpdk, packets)->Ok_0;
        let before = etherip::all_allocated(dpdk, front)->Ok_0;
        assert forall|i: int| 0 <= i < made.len() implies (#[trigger] made[i]).data()
            == packets[i] by {
            if i < front.len() {
                assert(made[i] == before[i]);
                assert(packets[i] == front[i]);
            } else {
                assert(made[i].data() =~= packets.last());
            }
        }
    }
}

/// The packets that carry a frame in fragments hold these fragments.
pub proof fn lemma_sent_fragments(
    packet: PacketModel,
    dpdk: dpdk::Environment,
    tunnel: Tunnel,
    mtu: int,
    mac: Seq<u8>,
    id: u32,
)
    requires
        mac.len() == 6,
        packet.data().len() + 42 > mtu,
        etherip::encapsulated(packet, dpdk, tunnel, mtu, mac, id) is Ok,
    ensures
        ({
            let sent = etherip::encapsulated(packet, dpdk, tunnel, mtu, mac, id)->Ok_0;
            &&& etherip::fragments_spec(packet.data(), tunnel, mtu, mac, id) matches Ok(fragments)
                && sent.len() == fragments.len() && forall|i: int|
                0 <= i < sent.len() ==> (#[trigger] sent[i]).data() == fragments[i]
        }),
{
    let fragments = etherip::fragments_spec(packet.data(), tunnel, mtu, mac, id)->Ok_0;
    lemma_allocated(dpdk, fragments);
}

/// An MTU that the program accepts lets every frame that has room in an IPv6 packet through.
pub proof fn accepted_mtus_carry_frames(
    option: Seq<char>,
    frame: Seq<u8>,
    tunnel: Tunnel,
    mac: Seq<u8>,
    id: u32,
)
    requires
        frame.len() + 2 <= 65_535,
        config::mtu_reading(option) is Ok,
    ensures
        etherip::fragments_spec(
            frame,
            tunnel,
            config::mtu_reading(option)->Ok_0,
            mac,
            id,
        ) is Ok,
{
}

/// What the far end makes of a packet that carries a whole frame.
proof fn lemma_whole_arrival(
    arrived: PacketModel,
    dpdk: dpdk::Environment,
    near: Tunnel,
    far: Tunnel,
    mac: Seq<u8>,
    frame: Seq<u8>,
    packets: Map<Flow, Pending>,
    now: int,
)
    requires
        ends(near, far),
        mac.len() == 6,
        frame.len() + 2 <= 65_535,
        arrived.wf(),
        arrived.single(),
        arrives_as(
            arrived.data(),
            etherip::ipv6_spec(near, mac, NEXT_ETHERIP, etherip::etherip_frame(frame)),
        ),
    ensures
        arrived.data().len() >= 56 + frame.len(),
        ({
            let out = etherip::unwrapped(arrived);
            &&& etherip::decapsulated(arrived, dpdk, far, packets, now) == (
                packets,
                Ok::<Option<PacketModel>, Error>(Some(out)),
            )
            &&& out.data() == frame
            &&& out.wf()
            &&& out.first.tailroom() == arrived.first.tailroom() + arrived.data().len() - 56
                - frame.len()
        }),
{
    let payload = etherip::etherip_frame(frame);
    assert(payload.len() == frame.len() + 2);
    own_packets_are_valid(near, far, mac, NEXT_ETHERIP, payload, arrived.data());
    lemma_arrived_fields(near, mac, NEXT_ETHERIP, payload, arrived.data());
    let out = etherip::unwrapped(arrived);
    assert(out.data() =~= etherip::outer_payload(arrived.data()).skip(2));
    assert(payload.skip(2) =~= frame);
}

/// Whether `arrived` hold what `sent` hold, each once, with or without padding, in the order in
/// which `order` counts them.
pub open spec fn all_arrive(
    sent: Seq<PacketModel>,
    arrived: Seq<PacketModel>,
    order: Seq<int>,
) -> bool {
    &&& order.no_duplicates()
    &&& arrived.len() == order.len() == sent.len()
    &&& forall|k: int|
        0 <= k < order.len() ==> {
            &&& 0 <= #[trigger] order[k] < sent.len()
            &&& arrived[k].wf()
            &&& arrived[k].single()
            &&& arrives_as(arrived[k].data(), sent[order[k]].data())
        }
}

/// The packet that holds a frame at the far end: the one that it came in, without its outer
/// headers and the padding of the link, or a fresh one where it came in fragments.
pub open spec fn handed_over(
    frame: Seq<u8>,
    mtu: int,
    last: Input,
    config: dpdk::MempoolConfig,
) -> PacketModel {
    if frame.len() + 42 > mtu {
        dpdk::allocated(pool(config, last.available), frame)->Ok_0
    } else {
        etherip::unwrapped(last.packet)
    }
}

/// The outer packets that carry a frame: the last one where it goes in one packet, and those that
/// add a fragment under `key` where it goes in fragments.
pub open spec fn carriers(
    inputs: Seq<Input>,
    tunnel: Tunnel,
    key: Flow,
    fragmented: bool,
) -> Seq<Input> {
    if fragmented {
        inputs.filter(of_flow(tunnel, key))
    } else {
        seq![inputs.last()]
    }
}

/// Whatever a frame becomes on its way into the tunnel, one packet or fragments, the far end gets
/// the frame back once all of it has arrived, in whatever order, with whatever padding of the
/// link and with whatever other packets between, and not before. Where the frame goes in
/// fragments the far end must have room for one more packet, the frame must not need more
/// fragments than a packet may have, and there must be a buffer that holds it when the last
/// arrives.
pub proof fn encapsulated_round_trip(
    packet: PacketModel,
    near_dpdk: dpdk::Environment,
    config: dpdk::MempoolConfig,
    near: Tunnel,
    far: Tunnel,
    mtu: int,
    mac: Seq<u8>,
    id: u32,
    inputs: Seq<Input>,
    order: Seq<int>,
    packets: Map<Flow, Pending>,
)
    requires
        ends(near, far),
        mac.len() == 6,
        mtu <= 65_575,
        packet.wf(),
        inputs.len() > 0,
        ({
            let key = (near.local_ipv6@, near.remote_ipv6@, id);
            let fragmented = packet.data().len() + 42 > mtu;
            let own = carriers(inputs, far, key, fragmented);
            &&& etherip::encapsulated(packet, near_dpdk, near, mtu, mac, id) matches Ok(sent)
                && all_arrive(sent, packets_of(own), order)
            &&& fragmented ==> {
                &&& of_flow(far, key)(inputs.last())
                &&& order.len() <= reassembly::MAX_FRAGMENTS
                &&& !packets.contains_key(key)
                &&& reassembly::undisturbed(packets, key, inputs.map_values(as_step(far)))
                &&& dpdk::allocated(pool(config, inputs.last().available), packet.data()) is Ok
            }
        }),
    ensures
        ({
            let key = (near.local_ipv6@, near.remote_ipv6@, id);
            let fragmented = packet.data().len() + 42 > mtu;
            let frame = handed_over(packet.data(), mtu, inputs.last(), config);
            let (after, result) = received(inputs, config, far, packets);
            &&& result == Ok::<Option<PacketModel>, Error>(Some(frame))
            &&& frame.data() == packet.data()
            &&& fragmented ==> !after.contains_key(key)
            &&& !fragmented ==> after == received(inputs.drop_last(), config, far, packets).0
            &&& forall|n: int|
                fragmented && 0 <= n < inputs.len() - 1 && of_flow(far, key)(inputs[n]) ==> (
                #[trigger] received(inputs.take(n + 1), config, far, packets)).1 == Ok::<
                    Option<PacketModel>,
                    Error,
                >(None)
        }),
{
    let frame = packet.data();
    let key = (near.local_ipv6@, near.remote_ipv6@, id);
    let sent = etherip::encapsulated(packet, near_dpdk, near, mtu, mac, id)->Ok_0;
    if frame.len() + 42 > mtu {
        let own = inputs.filter(of_flow(far, key));
        lemma_sent_fragments(packet, near_dpdk, near, mtu, mac, id);
        assert(fragments_arrive(frame, near, mtu, mac, id, packets_of(own), order));
        fragmented_round_trip(frame, near, far, mtu, mac, id, inputs, order, config, packets);
    } else {
        let last = inputs.last();
        lemma_whole_packet(packet, near_dpdk, near, mtu, mac, id);
        assert(order[0] == 0);
        assert(packets_of(seq![last])[0] == last.packet);
        lemma_whole_arrival(
            last.packet,
            pool(config, last.available),
            near,
            far,
            mac,
            frame,
            received(inputs.drop_last(), config, far, packets).0,
            last.now,
        );
    }
}

/// Whether a packet is one that the bridge takes for tunnel `j`.
spec fn for_tunnel(far: BridgeModel, packet: PacketModel, j: int) -> bool {
    &&& packet.single()
    &&& !ndp::solicits(packet.data(), far.local_ipv6)
    &&& etherip::wan_tunnel(packet.data(), far.tunnels) == Some(j)
}

proof fn lemma_prepared(near: BridgeModel, packet: PacketModel, i: int)
    requires
        packet.wf(),
        packet.single(),
        near.prepared(packet, i) is Ok,
    ensures
        ({
            let prepared = near.prepared(packet, i)->Ok_0;
            &&& prepared.wf()
            &&& prepared.single()
            &&& prepared.data() == untagged_for(packet.data(), near.tunnels[i])
        }),
{
    let prepared = near.prepared(packet, i)->Ok_0;
    assert(prepared.data() =~= untagged_for(packet.data(), near.tunnels[i]));
}

/// The far end takes each packet that the near end sent for its tunnel.
proof fn lemma_for_tunnel(
    far: BridgeModel,
    j: int,
    near: Tunnel,
    mac: Seq<u8>,
    next: u8,
    payload: Seq<u8>,
    arrived: PacketModel,
)
    requires
        mac.len() == 6,
        next == NEXT_ETHERIP || next == NEXT_FRAGMENT,
        payload.len() <= 65_535,
        etherip::remote_tunnel(near.local_ipv6@, far.tunnels) == Some(j),
        arrived.single(),
        arrives_as(arrived.data(), etherip::ipv6_spec(near, mac, next, payload)),
    ensures
        for_tunnel(far, arrived, j),
{
    lemma_arrived_fields(near, mac, next, payload, arrived.data());
}

pub proof fn lemma_whole_packet(
    packet: PacketModel,
    dpdk: dpdk::Environment,
    tunnel: Tunnel,
    mtu: int,
    mac: Seq<u8>,
    id: u32,
)
    requires
        mac.len() == 6,
        packet.wf(),
        packet.data().len() + 42 <= mtu,
        etherip::encapsulated(packet, dpdk, tunnel, mtu, mac, id) is Ok,
    ensures
        etherip::encapsulated(packet, dpdk, tunnel, mtu, mac, id) matches Ok(sent) && sent.len()
            == 1 && sent[0].data() == etherip::ipv6_spec(
            tunnel,
            mac,
            NEXT_ETHERIP,
            etherip::etherip_frame(packet.data()),
        ),
{
    let frame = packet.data();
    let sent = etherip::encapsulated(packet, dpdk, tunnel, mtu, mac, id)->Ok_0;
    let header = etherip::outer_header(tunnel, mac, NEXT_ETHERIP, (frame.len() + 2) as int);
    assert(header.len() == 54);
    assert(sent[0].data() =~= header + etherip::etherip_frame(frame));
}

/// Putting a frame into the LAN gives it the tag of its tunnel.
proof fn lemma_tag_put(far: BridgeModel, frame: PacketModel, j: int)
    requires
        frame.wf(),
        frame.single(),
        far.tunnels[j].vlan is Some ==> frame.data().len() >= 12 && frame.first.tailroom() >= 4,
    ensures
        far.delivered(frame, j) matches Ok(packet) && packet.data() == tagged_for(
            frame.data(),
            far.tunnels[j],
        ),
{
    if let Some(vlan) = far.tunnels[j].vlan {
        let tagged = etherip::tagged(frame.data(), vlan);
        assert(tagged.len() == frame.data().len() + 4);
        assert(frame.first.replaced(tagged).data() =~= tagged);
    }
}

/// The event of a fragment brings it to the far end of its tunnel.
proof fn lemma_fragment_event(far: BridgeModel, j: int, address: Seq<u8>, key: Flow, event: Event)
    requires
        etherip::remote_tunnel(address, far.tunnels) == Some(j),
        key.0 == address,
        far.brings(key)(event),
    ensures
        event is Wan,
        for_tunnel(far, event->Wan_0.packet, j),
        far.fragment(event) == etherip::fragment_in(
            event->Wan_0.packet,
            far.tunnels[j],
            event->Wan_0.now,
        ),
{
}

/// The packets that events bring from the WAN.
pub open spec fn inputs_of(events: Seq<Event>) -> Seq<Input> {
    events.map_values(|event: Event| event->Wan_0)
}

/// The events that bring a frame to the far end: the last one where it goes in one packet, and
/// those that bring a fragment under `key` where it goes in fragments.
pub open spec fn carrier_events(
    far: BridgeModel,
    events: Seq<Event>,
    key: Flow,
    fragmented: bool,
) -> Seq<Event> {
    if fragmented {
        events.filter(far.brings(key))
    } else {
        seq![events.last()]
    }
}

/// Whether the far end can put a frame into its LAN with the last of the events: it has room in
/// its buffers for a tag if the tunnel has a VLAN, and if the frame comes in fragments nothing
/// else waits under its key, it is left in peace, and there is a buffer that holds it.
pub open spec fn can_deliver(
    far: BridgeModel,
    j: int,
    inner: Seq<u8>,
    events: Seq<Event>,
    key: Flow,
    fragmented: bool,
) -> bool {
    let last = events.last()->Wan_0;
    let tag: int = if far.tunnels[j].vlan is Some {
        4
    } else {
        0
    };
    &&& tag > 0 ==> inner.len() >= 12
    &&& if fragmented {
        &&& far.brings(key)(events.last())
        &&& events.filter(far.brings(key)).len() <= reassembly::MAX_FRAGMENTS
        &&& !far.packets.contains_key(key)
        &&& reassembly::undisturbed(far.packets, key, far.steps(events))
        &&& last.available > 0
        &&& dpdk::HEADROOM + inner.len() + tag <= far.config.data_room_size
    } else {
        last.packet.first.tailroom() + last.packet.data().len() - 56 - inner.len() >= tag
    }
}

/// What becomes of the last event when it completes a frame.
proof fn lemma_bridge_delivers(before: BridgeModel, j: int, last: Input, frame: PacketModel)
    requires
        before.wf(),
        0 <= j < before.tunnels.len(),
        for_tunnel(before, last.packet, j),
        etherip::decapsulated(
            last.packet,
            before.dpdk(last.available),
            before.tunnels[j],
            before.packets,
            last.now,
        ).1 == Ok::<Option<PacketModel>, Error>(Some(frame)),
        frame.wf(),
        frame.single(),
        before.tunnels[j].vlan is Some ==> frame.data().len() >= 12 && frame.first.tailroom() >= 4,
    ensures
        before.wan_outcome(last.packet, last.available, last.now).1 matches Ok((wan, lan)) && {
            &&& wan.len() == 0
            &&& lan.len() == 1
            &&& lan[0].data() == tagged_for(frame.data(), before.tunnels[j])
        },
{
    lemma_tag_put(before, frame, j);
    assert(before.wan_outcome(last.packet, last.available, last.now) == before.tunnel_outcome(
        last.packet,
        j,
        last.available,
        last.now,
    ));
}

/// The steps that bring a frame are those of the events that bring it.
proof fn lemma_event_steps(far: BridgeModel, events: Seq<Event>, j: int, address: Seq<u8>, key: Flow)
    requires
        far.wf(),
        etherip::remote_tunnel(address, far.tunnels) == Some(j),
        key.0 == address,
    ensures
        far.steps(events).filter(reassembly::is_of(key)) == inputs_of(
            events.filter(far.brings(key)),
        ).map_values(as_step(far.tunnels[j])),
        forall|n: int|
            0 <= n < events.len() ==> far.brings(key)(#[trigger] events[n]) == reassembly::is_of(
                key,
            )(far.steps(events)[n]),
{
    let own = events.filter(far.brings(key));
    let steps = far.steps(events);
    let stands_for = |event: Event| as_step(far.tunnels[j])(event->Wan_0);
    assert forall|n: int| 0 <= n < events.len() implies far.brings(key)(#[trigger] events[n])
        == reassembly::is_of(key)(steps[n]) && (far.brings(key)(events[n]) ==> stands_for(events[n])
        == steps[n]) by {
        far.run_keeps(events.take(n));
        let now = far.run(events.take(n));
        assert(now.fragment(events[n]) == far.fragment(events[n]));
        assert(steps[n] == now.step(events[n]));
        if far.brings(key)(events[n]) {
            lemma_fragment_event(far, j, address, key, events[n]);
        }
    }
    lemma_filter_match(events, steps, far.brings(key), reassembly::is_of(key), stands_for);
    assert(inputs_of(own).map_values(as_step(far.tunnels[j])) =~= own.map_values(stands_for));
}

/// A frame from one LAN comes out in the other once all that the bridge between them sent of it
/// has arrived, in whatever order and with whatever other events between, and not before: without
/// the tag that selected the tunnel here and with the tag that stands for the tunnel there.
pub proof fn bridged_round_trip(
    near: BridgeModel,
    far: BridgeModel,
    packet: PacketModel,
    available: usize,
    then: int,
    i: int,
    j: int,
    events: Seq<Event>,
    order: Seq<int>,
)
    requires
        near.wf(),
        far.wf(),
        0 <= j < far.tunnels.len(),
        packet.wf(),
        packet.single(),
        etherip::lan_tunnel(packet.data(), near.tunnels) == Some(i),
        ends(near.tunnels[i], far.tunnels[j]),
        etherip::remote_tunnel(near.tunnels[i].local_ipv6@, far.tunnels) == Some(j),
        near.path_mtu[i] <= 65_575,
        !mac_table::reflected(near.tables[i], packet.data(), then),
        events.len() > 0,
        events.last() is Wan,
        ({
            let inner = untagged_for(packet.data(), near.tunnels[i]);
            let key = (
                near.tunnels[i].local_ipv6@,
                near.tunnels[i].remote_ipv6@,
                near.frag_id,
            );
            let fragmented = inner.len() + 42 > near.path_mtu[i];
            let own = carrier_events(far, events, key, fragmented);
            &&& near.lan_outcome(packet, available, then).1 matches Ok(sent) && all_arrive(
                sent,
                packets_of(inputs_of(own)),
                order,
            )
            &&& can_deliver(far, j, inner, events, key, fragmented)
        }),
    ensures
        ({
            let last = events.last()->Wan_0;
            far.run(events.drop_last()).wan_outcome(
                last.packet,
                last.available,
                last.now,
            ).1 matches Ok((wan, lan)) && {
                &&& wan.len() == 0
                &&& lan.len() == 1
                &&& lan[0].data() == bridged(packet.data(), near.tunnels[i], far.tunnels[j])
            }
        }),
        ({
            let inner = untagged_for(packet.data(), near.tunnels[i]);
            let key = (
                near.tunnels[i].local_ipv6@,
                near.tunnels[i].remote_ipv6@,
                near.frag_id,
            );
            inner.len() + 42 > near.path_mtu[i] ==> forall|n: int|
                0 <= n < events.len() - 1 && far.brings(key)(#[trigger] events[n]) ==> sends_nothing(
                    far.run(events.take(n)),
                    events[n],
                )
        }),
{
    let tunnel = near.tunnels[i];
    let prepared = near.prepared(packet, i)->Ok_0;
    let inner = untagged_for(packet.data(), tunnel);
    let mtu = near.path_mtu[i] as int;
    etherip::lan_tunnel_in_range(packet.data(), near.tunnels);
    lemma_prepared(near, packet, i);
    let front = events.drop_last();
    let before = far.run(front);
    let last = events.last()->Wan_0;
    far.run_keeps(front);
    if inner.len() + 42 > mtu {
        lemma_bridged_in_fragments(
            near.dpdk(available),
            tunnel,
            near.wan_mac,
            near.frag_id,
            mtu,
            prepared,
            far,
            j,
            events,
            order,
        );
    } else {
        let sent = etherip::encapsulated(
            prepared,
            near.dpdk(available),
            tunnel,
            mtu,
            near.wan_mac,
            near.frag_id,
        )->Ok_0;
        lemma_whole_packet(
            prepared,
            near.dpdk(available),
            tunnel,
            mtu,
            near.wan_mac,
            near.frag_id,
        );
        assert(order[0] == 0);
        assert(packets_of(inputs_of(seq![events.last()]))[0] == last.packet);
        let payload = etherip::etherip_frame(inner);
        assert(payload.len() == inner.len() + 2);
        lemma_for_tunnel(before, j, tunnel, near.wan_mac, NEXT_ETHERIP, payload, last.packet);
        lemma_whole_arrival(
            last.packet,
            before.dpdk(last.available),
            tunnel,
            far.tunnels[j],
            near.wan_mac,
            inner,
            before.packets,
            last.now,
        );
        lemma_bridge_delivers(before, j, last, etherip::unwrapped(last.packet));
    }
}

/// Whether the bridge sends nothing on a packet from the WAN.
pub open spec fn sends_nothing(bridge: BridgeModel, event: Event) -> bool {
    let input = event->Wan_0;
    bridge.wan_outcome(input.packet, input.available, input.now).1 == Ok::<
        (Seq<PacketModel>, Seq<PacketModel>),
        Error,
    >((Seq::empty(), Seq::empty()))
}

proof fn lemma_bridged_in_fragments(
    dpdk: dpdk::Environment,
    near: Tunnel,
    mac: Seq<u8>,
    id: u32,
    mtu: int,
    packet: PacketModel,
    far: BridgeModel,
    j: int,
    events: Seq<Event>,
    order: Seq<int>,
)
    requires
        far.wf(),
        0 <= j < far.tunnels.len(),
        ends(near, far.tunnels[j]),
        mac.len() == 6,
        mtu <= 65_575,
        packet.wf(),
        packet.data().len() + 42 > mtu,
        etherip::remote_tunnel(near.local_ipv6@, far.tunnels) == Some(j),
        events.len() > 0,
        events.last() is Wan,
        ({
            let key = (near.local_ipv6@, near.remote_ipv6@, id);
            let own = events.filter(far.brings(key));
            &&& etherip::encapsulated(packet, dpdk, near, mtu, mac, id) matches Ok(sent)
                && all_arrive(sent, packets_of(inputs_of(own)), order)
            &&& can_deliver(far, j, packet.data(), events, key, true)
        }),
    ensures
        ({
            let last = events.last()->Wan_0;
            far.run(events.drop_last()).wan_outcome(
                last.packet,
                last.available,
                last.now,
            ).1 matches Ok((wan, lan)) && {
                &&& wan.len() == 0
                &&& lan.len() == 1
                &&& lan[0].data() == tagged_for(packet.data(), far.tunnels[j])
            }
        }),
        ({
            let key = (near.local_ipv6@, near.remote_ipv6@, id);
            forall|n: int|
                0 <= n < events.len() - 1 && far.brings(key)(#[trigger] events[n]) ==> sends_nothing(
                    far.run(events.take(n)),
                    events[n],
                )
        }),
{
    let key = (near.local_ipv6@, near.remote_ipv6@, id);
    let frame = packet.data();
    let own = inputs_of(events.filter(far.brings(key)));
    let steps = far.steps(events);
    let length = events.len() as int;
    let last = events.last()->Wan_0;
    let before = far.run(events.drop_last());
    let made = pool(far.config, last.available);
    lemma_sent_fragments(packet, dpdk, near, mtu, mac, id);
    assert(fragments_arrive(frame, near, mtu, mac, id, packets_of(own), order));
    lemma_event_steps(far, events, j, near.local_ipv6@, key);
    assert(far.brings(key)(events[length - 1]));
    lemma_frame_joined(
        frame,
        near,
        far.tunnels[j],
        mtu,
        mac,
        id,
        own,
        order,
        far.packets,
        steps,
    );
    assert(dpdk::allocated(made, frame) is Ok);
    lemma_reassembled(made, frame);
    lemma_event_answer(far, events, j, near.local_ipv6@, key, length - 1);
    assert(events.take(length - 1) =~= events.drop_last());
    assert(steps.take(length) =~= steps);
    far.run_keeps(events.drop_last());
    lemma_bridge_delivers(before, j, last, dpdk::allocated(made, frame)->Ok_0);
    assert forall|n: int| 0 <= n < events.len() - 1 && far.brings(key)(
        #[trigger] events[n],
    ) implies sends_nothing(far.run(events.take(n)), events[n]) by {
        lemma_event_answer(far, events, j, near.local_ipv6@, key, n);
        assert(reassembly::run(far.packets, steps.take(n + 1)).1 is None);
    }
}

/// What the bridge makes of an event that brings a fragment.
proof fn lemma_event_answer(
    far: BridgeModel,
    events: Seq<Event>,
    j: int,
    address: Seq<u8>,
    key: Flow,
    n: int,
)
    requires
        far.wf(),
        0 <= j < far.tunnels.len(),
        etherip::remote_tunnel(address, far.tunnels) == Some(j),
        key.0 == address,
        0 <= n < events.len(),
        far.brings(key)(events[n]),
    ensures
        events[n] is Wan,
        ({
            let before = far.run(events.take(n));
            let input = events[n]->Wan_0;
            &&& for_tunnel(before, input.packet, j)
            &&& etherip::decapsulated(
                input.packet,
                before.dpdk(input.available),
                before.tunnels[j],
                before.packets,
                input.now,
            ).1 == etherip::reassembled(
                pool(far.config, input.available),
                reassembly::run(far.packets, far.steps(events).take(n + 1)).1,
            )
            &&& before.wan_outcome(input.packet, input.available, input.now)
                == before.tunnel_outcome(input.packet, j, input.available, input.now)
        }),
{
    let before = far.run(events.take(n));
    let steps = far.steps(events);
    far.run_keeps(events.take(n));
    far.run_steps(events.take(n));
    assert(far.steps(events.take(n)) =~= steps.take(n)) by {
        assert forall|m: int| 0 <= m < n implies events.take(n).take(m) == events.take(m) by {
            assert(events.take(n).take(m) =~= events.take(m));
        }
    }
    assert(steps.take(n + 1).drop_last() =~= steps.take(n));
    assert(steps.take(n + 1).last() == before.step(events[n]));
    lemma_fragment_event(far, j, address, key, events[n]);
    assert(before.fragment(events[n]) == far.fragment(events[n]));
}

} // verus!
