//! IPv6 Neighbor Discovery: replies to Neighbor Solicitations for the WAN address, and the
//! Packet Too Big messages that tell the MTU of a path.

use crate::address::Ipv6Addr;
use crate::bytes;
use crate::bytes::{array16_at, be16, be32_at, push_be16, push_bytes, same_bytes};
use crate::etherip;
use crate::protocol::{ETHER_TYPE_IPV6, NEXT_ETHERIP, NEXT_FRAGMENT, NEXT_ICMPV6};
use vstd::prelude::*;

verus! {

/// The sum of the 16-bit words of a byte string; a last byte on its own is the high byte of
/// its word.
pub open spec fn word_sum(bytes: Seq<u8>) -> int
    decreases bytes.len(),
{
    if bytes.len() == 0 {
        0
    } else {
        word_sum(bytes.drop_last()) + bytes.last() * byte_weight(bytes.len() - 1)
    }
}

/// What a byte at the given place counts in its word.
pub open spec fn byte_weight(place: int) -> int {
    if place % 2 == 0 {
        256
    } else {
        1
    }
}

/// What the checksum is taken of: the addresses, the length and the protocol of the
/// pseudo-header, and the message.
pub open spec fn checksum_sum(source: Seq<u8>, destination: Seq<u8>, message: Seq<u8>) -> int {
    word_sum(source) + word_sum(destination) + word_sum(message) + message.len() + NEXT_ICMPV6
}

/// A number brought into 16 bits by adding the carry back in.
pub open spec fn folded(sum: int) -> int {
    if sum == 0 {
        0
    } else {
        (sum - 1) % 65_535 + 1
    }
}

/// The ones' complement of the ones' complement sum.
pub open spec fn checksum_spec(source: Seq<u8>, destination: Seq<u8>, message: Seq<u8>) -> int {
    65_535 - folded(checksum_sum(source, destination, message))
}

proof fn lemma_word_sum_bound(bytes: Seq<u8>)
    ensures
        0 <= word_sum(bytes) <= bytes.len() * 65_280,
    decreases bytes.len(),
{
    if bytes.len() > 0 {
        lemma_word_sum_bound(bytes.drop_last());
    }
}

/// Adds up the 16-bit words of a byte string.
fn sum_words(bytes: &[u8]) -> (sum: u64)
    requires
        bytes@.len() <= u32::MAX,
    ensures
        sum == word_sum(bytes@),
        sum <= 65_280 * bytes@.len(),
{
    let mut sum: u64 = 0;
    let mut i: usize = 0;
    while i < bytes.len()
        invariant
            i <= bytes@.len() <= u32::MAX,
            sum == word_sum(bytes@.take(i as int)),
        decreases bytes@.len() - i,
    {
        let ghost front = bytes@.take(i + 1);
        proof {
            assert(front.drop_last() =~= bytes@.take(i as int));
            assert(front.last() == bytes@[i as int]);
            lemma_word_sum_bound(front.drop_last());
        }
        let weight: u64 = if i % 2 == 0 {
            256
        } else {
            1
        };
        assert(bytes@[i as int] * weight <= 65_280) by (nonlinear_arith)
            requires
                bytes@[i as int] <= 255,
                weight <= 256,
        ;
        sum = sum + bytes[i] as u64 * weight;
        i += 1;
    }
    assert(bytes@.take(i as int) =~= bytes@);
    proof {
        lemma_word_sum_bound(bytes@);
    }
    sum
}

/// Computes the ICMPv6 checksum of a message between two addresses.
pub fn icmpv6_checksum(source: &[u8; 16], destination: &[u8; 16], message: &[u8]) -> (checksum: u16)
    requires
        message@.len() <= u32::MAX,
    ensures
        checksum == checksum_spec(source@, destination@, message@),
{
    checksum_between(source, destination, message)
}

fn checksum_between(source: &[u8; 16], destination: &[u8; 16], message: &[u8]) -> (checksum: u16)
    requires
        message@.len() <= u32::MAX,
    ensures
        checksum == checksum_spec(source@, destination@, message@),
{
    let mut sum: u64 = sum_words(source) + sum_words(destination) + sum_words(message)
        + message.len() as u64 + NEXT_ICMPV6 as u64;
    let ghost total = sum as int;
    while sum > 0xffff
        invariant
            sum > 0,
            folded(sum as int) == folded(total),
        decreases sum,
    {
        let carried: u64 = sum % 0x1_0000 + sum / 0x1_0000;
        proof {
            let high = sum as int / 0x1_0000;
            assert(carried == sum - 65_535 * high);
            assert((carried - 1) % 65_535 == (sum - 1) % 65_535);
        }
        sum = carried;
    }
    (65_535 - sum) as u16
}

/// The multicast address on which a host is solicited: a fixed prefix and the last three bytes
/// of its own address.
pub open spec fn solicited_node(address: Seq<u8>) -> Seq<u8> {
    seq![0xffu8, 2u8, 0u8, 0u8, 0u8, 0u8, 0u8, 0u8, 0u8, 0u8, 0u8, 1u8, 0xffu8] + address.skip(13)
}

/// The multicast address of all nodes on the link.
pub open spec fn all_nodes() -> Seq<u8> {
    seq![
        0xffu8, 2u8, 0u8, 0u8, 0u8, 0u8, 0u8, 0u8, 0u8, 0u8, 0u8, 0u8, 0u8, 0u8, 0u8, 1u8,
    ]
}

/// The address of a host that does not have one yet.
pub open spec fn unspecified() -> Seq<u8> {
    Seq::new(16, |i: int| 0u8)
}

/// Whether a packet carries an ICMPv6 message of at least `least` bytes behind an Ethernet
/// and an IPv6 header.
pub open spec fn carries_message(packet: Seq<u8>, least: int) -> bool {
    &&& packet.len() >= 54 + least
    &&& bytes::be16_spec(packet[12], packet[13]) == ETHER_TYPE_IPV6
    &&& packet[14] / 16 == 6
    &&& packet[20] == NEXT_ICMPV6
    &&& etherip::payload_length(packet) >= least
    &&& packet.len() >= 54 + etherip::payload_length(packet)
}

/// Whether the message of a packet has a valid checksum.
pub open spec fn intact(packet: Seq<u8>) -> bool {
    checksum_spec(
        packet.subrange(22, 38),
        packet.subrange(38, 54),
        etherip::outer_payload(packet),
    ) == 0
}

/// Whether a packet is a Neighbor Solicitation for `local`.
pub open spec fn solicits(packet: Seq<u8>, local: Seq<u8>) -> bool {
    let message = etherip::outer_payload(packet);
    let destination = packet.subrange(38, 54);
    &&& carries_message(packet, 24)
    &&& packet[21] == 255
    &&& destination == local || destination == solicited_node(local)
    &&& message[0] == 135
    &&& message[1] == 0
    &&& message.subrange(8, 24) == local
    &&& intact(packet)
}

/// The answer to a solicitation before its checksum is filled in.
pub open spec fn advertisement_blank(local: Seq<u8>, mac: Seq<u8>, flags: u8) -> Seq<u8> {
    seq![136u8, 0u8, 0u8, 0u8, flags, 0u8, 0u8, 0u8] + local + seq![2u8, 1u8] + mac
}

/// A message with the given checksum in its checksum field.
pub open spec fn with_checksum(message: Seq<u8>, checksum: int) -> Seq<u8> {
    message.update(2, bytes::be16_bytes(checksum)[0]).update(3, bytes::be16_bytes(checksum)[1])
}

/// The Neighbor Advertisement that answers a solicitation: to the sender, or to all nodes where
/// the sender has no address yet.
pub open spec fn advertisement(packet: Seq<u8>, local: Seq<u8>, mac: Seq<u8>) -> Seq<u8> {
    let source = packet.subrange(22, 38);
    let nameless = source == unspecified();
    let to_mac = if nameless {
        seq![0x33u8, 0x33u8, 0u8, 0u8, 0u8, 1u8]
    } else {
        packet.subrange(6, 12)
    };
    let to = if nameless {
        all_nodes()
    } else {
        source
    };
    let blank = advertisement_blank(
        local,
        mac,
        if nameless {
            0x20u8
        } else {
            0x60u8
        },
    );
    to_mac + mac + bytes::be16_bytes(ETHER_TYPE_IPV6 as int) + seq![0x60u8, 0u8, 0u8, 0u8]
        + bytes::be16_bytes(32) + seq![NEXT_ICMPV6, 255u8] + local + to + with_checksum(
        blank,
        checksum_spec(local, to, blank),
    )
}

/// Whether a packet carries an ICMPv6 message of at least `least` bytes.
fn has_message(packet: &[u8], least: usize) -> (found: bool)
    requires
        least <= 65_535,
    ensures
        found == carries_message(packet@, least as int),
{
    if packet.len() < 54 + least || be16(packet[12], packet[13]) != ETHER_TYPE_IPV6 || packet[14]
        / 16 != 6 || packet[20] != NEXT_ICMPV6 {
        return false;
    }
    let length: usize = be16(packet[18], packet[19]) as usize;
    length >= least && packet.len() >= 54 + length
}

/// The message of a packet that carries one.
fn message_of(packet: &[u8]) -> (message: &[u8])
    requires
        carries_message(packet@, 0),
    ensures
        message@ == etherip::outer_payload(packet@),
        message@.len() <= 65_535,
{
    let length: usize = be16(packet[18], packet[19]) as usize;
    vstd::slice::slice_subrange(packet, 54, 54 + length)
}

fn is_intact(packet: &[u8]) -> (valid: bool)
    requires
        carries_message(packet@, 0),
    ensures
        valid == intact(packet@),
{
    checksum_between(&array16_at(packet, 22), &array16_at(packet, 38), message_of(packet)) == 0
}

/// Whether a packet is a Neighbor Solicitation for `local_ipv6`.
fn is_solicitation(packet: &[u8], local_ipv6: &Ipv6Addr) -> (found: bool)
    ensures
        found == solicits(packet@, local_ipv6@),
{
    if !has_message(packet, 24) || packet[21] != 255 {
        return false;
    }
    let local: &[u8] = &local_ipv6.octets;
    let mut node: Vec<u8> = vec![0xff, 2, 0, 0, 0, 0, 0, 0, 0, 0, 0, 1, 0xff];
    assert(node@ =~= seq![
        0xffu8,
        2u8,
        0u8,
        0u8,
        0u8,
        0u8,
        0u8,
        0u8,
        0u8,
        0u8,
        0u8,
        1u8,
        0xffu8,
    ]);
    push_bytes(&mut node, vstd::slice::slice_subrange(local, 13, 16));
    assert(node@ == solicited_node(local_ipv6@));
    let destination = vstd::slice::slice_subrange(packet, 38, 54);
    if !same_bytes(destination, local) && !same_bytes(destination, &node) {
        return false;
    }
    let message = message_of(packet);
    if message[0] != 135 || message[1] != 0 {
        return false;
    }
    if !same_bytes(vstd::slice::slice_subrange(message, 8, 24), local) {
        return false;
    }
    is_intact(packet)
}

/// Builds a Neighbor Advertisement for a Neighbor Solicitation addressed to
/// `local_ipv6`, or `None` when the packet is unrelated or malformed.
pub fn ndp_advertisement(packet: &[u8], local_ipv6: Ipv6Addr, local_mac: [u8; 6]) -> (reply: Option<
    Vec<u8>,
>)
    ensures
        match reply {
            Some(reply) => {
                &&& solicits(packet@, local_ipv6@)
                &&& reply@ == advertisement(packet@, local_ipv6@, local_mac@)
            },
            None => !solicits(packet@, local_ipv6@),
        },
{
    if !is_solicitation(packet, &local_ipv6) {
        return None;
    }
    let zeros: [u8; 16] = [0; 16];
    assert(zeros@ =~= unspecified());
    let source: [u8; 16] = array16_at(packet, 22);
    let nameless: bool = same_bytes(&source, &zeros);
    let to: [u8; 16] = if nameless {
        let nodes: [u8; 16] = [0xff, 2, 0, 0, 0, 0, 0, 0, 0, 0, 0, 0, 0, 0, 0, 1];
        assert(nodes@ =~= all_nodes());
        nodes
    } else {
        source
    };
    let mut blank: Vec<u8> = vec![
        136,
        0,
        0,
        0,
        if nameless {
            0x20
        } else {
            0x60
        },
        0,
        0,
        0,
    ];
    let ghost flags: u8 = if nameless {
        0x20
    } else {
        0x60
    };
    assert(blank@ =~= seq![136u8, 0u8, 0u8, 0u8, flags, 0u8, 0u8, 0u8]);
    push_bytes(&mut blank, &local_ipv6.octets);
    let ghost before = blank@;
    blank.push(2);
    blank.push(1);
    assert(blank@ =~= before + seq![2u8, 1u8]);
    push_bytes(&mut blank, &local_mac);
    assert(blank@ == advertisement_blank(local_ipv6@, local_mac@, flags));
    let checksum: u16 = checksum_between(&local_ipv6.octets, &to, &blank);
    let mut reply: Vec<u8> = Vec::with_capacity(86);
    if nameless {
        push_bytes(&mut reply, &[0x33, 0x33, 0, 0, 0, 1]);
        assert(reply@ =~= seq![0x33u8, 0x33u8, 0u8, 0u8, 0u8, 1u8]);
    } else {
        push_bytes(&mut reply, vstd::slice::slice_subrange(packet, 6, 12));
        assert(reply@ =~= packet@.subrange(6, 12));
    }
    push_bytes(&mut reply, &local_mac);
    push_be16(&mut reply, ETHER_TYPE_IPV6);
    let ghost before = reply@;
    reply.push(0x60);
    reply.push(0);
    reply.push(0);
    reply.push(0);
    assert(reply@ =~= before + seq![0x60u8, 0u8, 0u8, 0u8]);
    push_be16(&mut reply, 32);
    let ghost before = reply@;
    reply.push(NEXT_ICMPV6);
    reply.push(255);
    assert(reply@ =~= before + seq![NEXT_ICMPV6, 255u8]);
    push_bytes(&mut reply, &local_ipv6.octets);
    push_bytes(&mut reply, &to);
    let ghost unsummed = blank@;
    blank[2] = (checksum / 256) as u8;
    blank[3] = (checksum % 256) as u8;
    assert(blank@ =~= with_checksum(unsummed, checksum as int));
    push_bytes(&mut reply, &blank);
    Some(reply)
}

/// Whether a packet is a Packet Too Big message about a packet that `local` has sent into a
/// tunnel.
pub open spec fn too_big(packet: Seq<u8>, local: Seq<u8>) -> bool {
    let message = etherip::outer_payload(packet);
    &&& carries_message(packet, 48)
    &&& packet.subrange(38, 54) == local
    &&& message[0] == 2
    &&& message[8] / 16 == 6
    &&& message[14] == NEXT_ETHERIP || message[14] == NEXT_FRAGMENT
    &&& message.subrange(16, 32) == local
    &&& intact(packet)
}

/// The MTU that a Packet Too Big message gives.
pub open spec fn told_mtu(packet: Seq<u8>) -> int {
    bytes::be32_spec(etherip::outer_payload(packet).subrange(4, 8))
}

/// Where the packet was going that a Packet Too Big message is about.
pub open spec fn told_destination(packet: Seq<u8>) -> Seq<u8> {
    etherip::outer_payload(packet).subrange(32, 48)
}

/// Reads the MTU and the far end that a Packet Too Big message is about, or `None` when the
/// packet is unrelated or malformed.
pub fn icmpv6_packet_too_big(packet: &[u8], local_ipv6: Ipv6Addr) -> (told: Option<(u32, Ipv6Addr)>)
    ensures
        match told {
            Some((mtu, destination)) => {
                &&& too_big(packet@, local_ipv6@)
                &&& mtu == told_mtu(packet@)
                &&& destination@ == told_destination(packet@)
            },
            None => !too_big(packet@, local_ipv6@),
        },
{
    if !has_message(packet, 48) {
        return None;
    }
    let local: &[u8] = &local_ipv6.octets;
    if !same_bytes(vstd::slice::slice_subrange(packet, 38, 54), local) {
        return None;
    }
    let message = message_of(packet);
    if message[0] != 2 || message[8] / 16 != 6 || (message[14] != NEXT_ETHERIP && message[14]
        != NEXT_FRAGMENT) {
        return None;
    }
    if !same_bytes(vstd::slice::slice_subrange(message, 16, 32), local) || !is_intact(packet) {
        return None;
    }
    Some((be32_at(message, 4), Ipv6Addr { octets: array16_at(message, 32) }))
}

proof fn lemma_word_sum_update(bytes: Seq<u8>, place: int, value: u8)
    requires
        0 <= place < bytes.len(),
    ensures
        word_sum(bytes.update(place, value)) == word_sum(bytes) + (value - bytes[place])
            * byte_weight(place),
    decreases bytes.len(),
{
    let changed = bytes.update(place, value);
    let weight = byte_weight(place);
    if place == bytes.len() - 1 {
        assert(changed.drop_last() =~= bytes.drop_last());
        assert((value - bytes[place]) * weight == value * weight - bytes[place] * weight)
            by (nonlinear_arith);
    } else {
        assert(changed.drop_last() =~= bytes.drop_last().update(place, value));
        lemma_word_sum_update(bytes.drop_last(), place, value);
    }
}

/// A message whose checksum field was zero when its checksum was taken, and then got that
/// checksum, has a valid one.
pub proof fn filled_in_checksum_is_valid(
    source: Seq<u8>,
    destination: Seq<u8>,
    message: Seq<u8>,
)
    requires
        message.len() >= 4,
        message[2] == 0,
        message[3] == 0,
    ensures
        checksum_spec(
            source,
            destination,
            with_checksum(message, checksum_spec(source, destination, message)),
        ) == 0,
{
    let sum = checksum_sum(source, destination, message);
    let checksum = checksum_spec(source, destination, message);
    let high = bytes::be16_bytes(checksum)[0];
    let low = bytes::be16_bytes(checksum)[1];
    lemma_word_sum_bound(source);
    lemma_word_sum_bound(destination);
    lemma_word_sum_bound(message);
    assert(0 <= checksum <= 65_534);
    assert(high * 256 + low == checksum);
    lemma_word_sum_update(message, 2, high);
    lemma_word_sum_update(message.update(2, high), 3, low);
    let filled = with_checksum(message, checksum);
    assert(checksum_sum(source, destination, filled) == sum + checksum);
    assert(folded(sum + checksum) == 65_535);
}

/// A Neighbor Advertisement carries a valid checksum.
pub proof fn advertisement_is_intact(packet: Seq<u8>, local: Seq<u8>, mac: Seq<u8>)
    requires
        solicits(packet, local),
        local.len() == 16,
        mac.len() == 6,
    ensures
        carries_message(advertisement(packet, local, mac), 32),
        intact(advertisement(packet, local, mac)),
{
    let reply = advertisement(packet, local, mac);
    let source = packet.subrange(22, 38);
    let nameless = source == unspecified();
    let to = if nameless {
        all_nodes()
    } else {
        source
    };
    let flags = if nameless {
        0x20u8
    } else {
        0x60u8
    };
    let blank = advertisement_blank(local, mac, flags);
    let filled = with_checksum(blank, checksum_spec(local, to, blank));
    filled_in_checksum_is_valid(local, to, blank);
    assert(to.len() == 16);
    assert(filled.len() == 32);
    assert(reply.len() == 86);
    assert(reply.subrange(12, 14) =~= bytes::be16_bytes(ETHER_TYPE_IPV6 as int));
    assert(reply[12] == reply.subrange(12, 14)[0] && reply[13] == reply.subrange(12, 14)[1]);
    assert(reply[14] == 0x60);
    assert(reply.subrange(18, 20) =~= bytes::be16_bytes(32));
    assert(reply[18] == reply.subrange(18, 20)[0] && reply[19] == reply.subrange(18, 20)[1]);
    assert(reply[20] == NEXT_ICMPV6);
    assert(reply.subrange(22, 38) =~= local);
    assert(reply.subrange(38, 54) =~= to);
    assert(etherip::outer_payload(reply) =~= filled);
}

/// The sum of a byte string is that of its 16-bit words in network order, of which a last byte on
/// its own is the high half.
pub proof fn words_add_up(bytes: Seq<u8>)
    ensures
        bytes.len() == 0 ==> word_sum(bytes) == 0,
        bytes.len() == 1 ==> word_sum(bytes) == bytes[0] * 256,
        bytes.len() >= 2 ==> word_sum(bytes) == bytes[0] * 256 + bytes[1] + word_sum(bytes.skip(2)),
    decreases bytes.len(),
{
    reveal_with_fuel(word_sum, 3);
    if bytes.len() > 2 {
        words_add_up(bytes.drop_last());
        assert(bytes.skip(2).drop_last() =~= bytes.drop_last().skip(2));
        assert(bytes.skip(2).last() == bytes.last());
        assert(byte_weight(bytes.len() - 1) == byte_weight(bytes.skip(2).len() - 1));
    } else if bytes.len() == 2 {
        assert(bytes.drop_last().drop_last() =~= Seq::empty());
        assert(bytes.skip(2) =~= Seq::empty());
    }
}

/// A checksum brings the words of the pseudo-header (both addresses, the length and the protocol
/// number 58) and of the message to a multiple of 65535, and is the smallest that does.
pub proof fn checksum_completes(source: Seq<u8>, destination: Seq<u8>, message: Seq<u8>)
    ensures
        0 <= checksum_spec(source, destination, message) < 65_535,
        (checksum_spec(source, destination, message) + word_sum(source) + word_sum(destination)
            + word_sum(message) + message.len() + 58) % 65_535 == 0,
{
    lemma_word_sum_bound(source);
    lemma_word_sum_bound(destination);
    lemma_word_sum_bound(message);
    let sum = word_sum(source) + word_sum(destination) + word_sum(message) + message.len() + 58;
    assert(checksum_sum(source, destination, message) == sum);
}

/// A byte string with another value in the 16-bit word at an even place.
pub open spec fn with_word(bytes: Seq<u8>, place: int, high: u8, low: u8) -> Seq<u8> {
    bytes.update(place, high).update(place + 1, low)
}

/// How much larger a word has become.
pub open spec fn word_growth(bytes: Seq<u8>, place: int, high: u8, low: u8) -> int {
    (high * 256 + low) - (bytes[place] * 256 + bytes[place + 1])
}

proof fn lemma_with_word(bytes: Seq<u8>, place: int, high: u8, low: u8)
    requires
        0 <= place < bytes.len() - 1,
        place % 2 == 0,
    ensures
        word_sum(with_word(bytes, place, high, low)) == word_sum(bytes) + word_growth(
            bytes,
            place,
            high,
            low,
        ),
{
    lemma_word_sum_update(bytes, place, high);
    lemma_word_sum_update(bytes.update(place, high), place + 1, low);
}

proof fn lemma_balance(checksum: int, sum: int, other: int, growth: int)
    requires
        (checksum + sum) % 65_535 == 0,
        (other + (sum + growth)) % 65_535 == 0,
    ensures
        (other - checksum + growth) % 65_535 == 0,
{
    let before = (checksum + sum) / 65_535;
    let after = (other + (sum + growth)) / 65_535;
    assert(checksum + sum == 65_535 * before);
    assert(other + (sum + growth) == 65_535 * after);
    assert(other - checksum + growth == 65_535 * (after - before));
}

/// A change of one word of the source, of the destination or of the message by some amount changes
/// the checksum by as much the other way, modulo 65535.
pub proof fn checksum_follows_every_word(
    source: Seq<u8>,
    destination: Seq<u8>,
    message: Seq<u8>,
    place: int,
    high: u8,
    low: u8,
)
    requires
        0 <= place,
        place % 2 == 0,
    ensures
        place < source.len() - 1 ==> (checksum_spec(
            with_word(source, place, high, low),
            destination,
            message,
        ) - checksum_spec(source, destination, message) + word_growth(source, place, high, low))
            % 65_535 == 0,
        place < destination.len() - 1 ==> (checksum_spec(
            source,
            with_word(destination, place, high, low),
            message,
        ) - checksum_spec(source, destination, message) + word_growth(
            destination,
            place,
            high,
            low,
        )) % 65_535 == 0,
        place < message.len() - 1 ==> (checksum_spec(
            source,
            destination,
            with_word(message, place, high, low),
        ) - checksum_spec(source, destination, message) + word_growth(message, place, high, low))
            % 65_535 == 0,
{
    let checksum = checksum_spec(source, destination, message);
    let sum = word_sum(source) + word_sum(destination) + word_sum(message) + message.len() + 58;
    checksum_completes(source, destination, message);
    if place < source.len() - 1 {
        let changed = with_word(source, place, high, low);
        let growth = word_growth(source, place, high, low);
        lemma_with_word(source, place, high, low);
        checksum_completes(changed, destination, message);
        lemma_balance(checksum, sum, checksum_spec(changed, destination, message), growth);
    }
    if place < destination.len() - 1 {
        let changed = with_word(destination, place, high, low);
        let growth = word_growth(destination, place, high, low);
        lemma_with_word(destination, place, high, low);
        checksum_completes(source, changed, message);
        lemma_balance(checksum, sum, checksum_spec(source, changed, message), growth);
    }
    if place < message.len() - 1 {
        let changed = with_word(message, place, high, low);
        let growth = word_growth(message, place, high, low);
        lemma_with_word(message, place, high, low);
        checksum_completes(source, destination, changed);
        lemma_balance(checksum, sum, checksum_spec(source, destination, changed), growth);
    }
}

} // verus!
