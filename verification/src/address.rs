//! IPv6 addresses.

use crate::bytes;
use crate::bytes::{array16_at, push_be16, push_bytes, same_bytes};
use crate::text;
use crate::text::{number, split};
use vstd::prelude::*;
use vstd::string::StrSliceExecFns;

verus! {

/// A 128-bit IPv6 address in network order.
#[derive(Clone, Copy, Debug)]
pub struct Ipv6Addr {
    pub octets: [u8; 16],
}

impl View for Ipv6Addr {
    type V = Seq<u8>;

    open spec fn view(&self) -> Seq<u8> {
        self.octets@
    }
}

impl Ipv6Addr {
    /// The sixteen bytes of the address.
    pub fn octets(&self) -> (octets: [u8; 16])
        ensures
            octets@ == self@,
    {
        self.octets
    }

    /// Two addresses with the same bytes are one address.
    pub proof fn view_injective(left: Ipv6Addr, right: Ipv6Addr)
        requires
            left@ == right@,
        ensures
            left == right,
    {
        assert(left.octets =~= right.octets);
    }
}

impl PartialEq for Ipv6Addr {
    fn eq(&self, other: &Self) -> (same: bool) {
        same_bytes(&self.octets, &other.octets)
    }
}

impl vstd::std_specs::cmp::PartialEqSpecImpl for Ipv6Addr {
    open spec fn obeys_eq_spec() -> bool {
        true
    }

    open spec fn eq_spec(&self, other: &Self) -> bool {
        self@ == other@
    }
}

impl Eq for Ipv6Addr {

}

impl From<[u8; 16]> for Ipv6Addr {
    fn from(octets: [u8; 16]) -> (address: Self) {
        Ipv6Addr { octets }
    }
}

impl vstd::std_specs::convert::FromSpecImpl<[u8; 16]> for Ipv6Addr {
    open spec fn obeys_from_spec() -> bool {
        true
    }

    open spec fn from_spec(octets: [u8; 16]) -> Self {
        Ipv6Addr { octets }
    }
}

/// A group of an address: one to four hexadecimal digits.
pub open spec fn group_spec(text: Seq<char>) -> Option<Seq<u8>> {
    if 1 <= text.len() <= 4 && text[0] != '+' {
        match text::number_spec(text, 16, 0xffff) {
            Some(value) => Some(bytes::be16_bytes(value)),
            None => None,
        }
    } else {
        None
    }
}

/// A decimal byte of up to three digits without leading zeros.
pub open spec fn octet_spec(text: Seq<char>) -> Option<int> {
    if 1 <= text.len() <= 3 && text[0] != '+' && (text[0] != '0' || text.len() == 1) {
        text::number_spec(text, 10, 255)
    } else {
        None
    }
}

/// Four decimal bytes with dots between them.
pub open spec fn dotted_spec(text: Seq<char>) -> Option<Seq<u8>> {
    let parts = text::split_spec(text, '.');
    if parts.len() == 4 && forall|i: int| 0 <= i < 4 ==> octet_spec(#[trigger] parts[i]) is Some {
        Some(parts.map_values(|part: Seq<char>| octet_spec(part)->0 as u8))
    } else {
        None
    }
}

/// The bytes of one part of an address; where it is allowed, the part may be in dotted form.
pub open spec fn part_spec(text: Seq<char>, dotted: bool) -> Option<Seq<u8>> {
    if dotted && dotted_spec(text) is Some {
        dotted_spec(text)
    } else {
        group_spec(text)
    }
}

/// The bytes of parts one after the other; where it is allowed, the last may be in dotted form.
pub open spec fn parts_spec(parts: Seq<Seq<char>>, dotted: bool) -> Option<Seq<u8>>
    decreases parts.len(),
{
    if parts.len() == 0 {
        Some(Seq::empty())
    } else {
        match (parts_spec(parts.drop_last(), false), part_spec(parts.last(), dotted)) {
            (Some(front), Some(last)) => Some(front + last),
            _ => None,
        }
    }
}

/// The bytes on one side of a double colon, where there may be none.
pub open spec fn side_spec(text: Seq<char>, dotted: bool) -> Option<Seq<u8>> {
    if text.len() == 0 {
        Some(Seq::empty())
    } else {
        parts_spec(text::split_spec(text, ':'), dotted)
    }
}

/// Whether a double colon starts at `i`.
pub open spec fn double_colon_at(text: Seq<char>, i: int) -> bool {
    0 <= i < text.len() - 1 && text[i] == ':' && text[i + 1] == ':'
}

/// Whether the first double colon starts at `i`.
pub open spec fn first_double_colon(text: Seq<char>, i: int) -> bool {
    double_colon_at(text, i) && forall|k: int| 0 <= k < i ==> !double_colon_at(text, k)
}

/// The address around a double colon, which stands for at least two zero bytes.
pub open spec fn shortened_spec(text: Seq<char>, i: int) -> Option<Seq<u8>> {
    match (side_spec(text.take(i), false), side_spec(text.skip(i + 2), true)) {
        (Some(head), Some(tail)) => if head.len() + tail.len() <= 14 {
            Some(head + bytes::zeros(16 - head.len() - tail.len()) + tail)
        } else {
            None
        },
        _ => None,
    }
}

/// The address that `text` stands for: eight groups with colons between them, of which the last
/// two may be in dotted form and of which zeros in one place may be left out for a double colon.
pub open spec fn address_spec(text: Seq<char>) -> Option<Seq<u8>> {
    if exists|i: int| #[trigger] first_double_colon(text, i) {
        shortened_spec(text, choose|i: int| #[trigger] first_double_colon(text, i))
    } else {
        match parts_spec(text::split_spec(text, ':'), true) {
            Some(bytes) => if bytes.len() == 16 {
                Some(bytes)
            } else {
                None
            },
            None => None,
        }
    }
}

/// There is one first double colon.
proof fn lemma_first_double_colon(text: Seq<char>, i: int, j: int)
    requires
        first_double_colon(text, i),
        first_double_colon(text, j),
    ensures
        i == j,
{
}

fn group(text: &str) -> (value: Option<u16>)
    ensures
        match value {
            Some(value) => group_spec(text@) == Some(bytes::be16_bytes(value as int)),
            None => group_spec(text@) is None,
        },
{
    let length: usize = text.unicode_len();
    if length < 1 || length > 4 || text.get_char(0) == '+' {
        return None;
    }
    match number(text, 16, 0xffff) {
        Some(value) => Some(value as u16),
        None => None,
    }
}

fn octet(text: &str) -> (value: Option<u8>)
    ensures
        match value {
            Some(value) => octet_spec(text@) == Some(value as int),
            None => octet_spec(text@) is None,
        },
{
    let length: usize = text.unicode_len();
    if length < 1 || length > 3 || text.get_char(0) == '+' {
        return None;
    }
    if text.get_char(0) == '0' && length > 1 {
        return None;
    }
    match number(text, 10, 255) {
        Some(value) => Some(value as u8),
        None => None,
    }
}

fn dotted(text: &str) -> (value: Option<Vec<u8>>)
    ensures
        match value {
            Some(value) => dotted_spec(text@) == Some(value@),
            None => dotted_spec(text@) is None,
        },
{
    let parts = split(text, '.');
    let ghost texts = text::split_spec(text@, '.');
    if parts.len() != 4 {
        return None;
    }
    let mut value: Vec<u8> = Vec::new();
    let mut i: usize = 0;
    while i < 4
        invariant
            i <= 4,
            parts@.len() == 4,
            texts == text::split_spec(text@, '.'),
            texts == text::texts(parts@),
            value@.len() == i,
            forall|k: int|
                0 <= k < i ==> octet_spec(#[trigger] texts[k]) == Some(value@[k] as int),
        decreases 4 - i,
    {
        assert(texts[i as int] == parts@[i as int]@);
        match octet(parts[i]) {
            Some(octet) => value.push(octet),
            None => {
                return None;
            },
        }
        i += 1;
    }
    assert(value@ =~= texts.map_values(|part: Seq<char>| octet_spec(part)->0 as u8));
    Some(value)
}

/// Appends the bytes of the parts, if they stand for any.
fn push_parts(out: &mut Vec<u8>, parts: &Vec<&str>, last_dotted: bool) -> (pushed: bool)
    requires
        parts@.len() > 0,
    ensures
        match parts_spec(text::texts(parts@), last_dotted) {
            Some(bytes) => pushed && final(out)@ == old(out)@ + bytes,
            None => !pushed,
        },
{
    let ghost before = out@;
    let ghost texts = text::texts(parts@);
    let last: usize = parts.len() - 1;
    let mut i: usize = 0;
    assert(out@ =~= before + parts_spec(texts.take(0), false)->0);
    while i < last
        invariant
            i <= last,
            last == parts@.len() - 1,
            texts == text::texts(parts@),
            parts_spec(texts.take(i as int), false) is Some,
            out@ == before + parts_spec(texts.take(i as int), false)->0,
        decreases last - i,
    {
        let ghost front = texts.take(i + 1);
        proof {
            assert(front.drop_last() =~= texts.take(i as int));
            assert(front.last() == parts@[i as int]@);
        }
        match group(parts[i]) {
            Some(value) => push_be16(out, value),
            None => {
                proof {
                    lemma_bad_front(texts, last_dotted, i + 1);
                }
                return false;
            },
        }
        proof {
            let so_far = parts_spec(texts.take(i as int), false)->0;
            assert(out@ =~= before + (so_far + part_spec(front.last(), false)->0));
        }
        i += 1;
    }
    proof {
        assert(texts.drop_last() =~= texts.take(last as int));
        assert(texts.last() == parts@[last as int]@);
    }
    let ghost front = parts_spec(texts.drop_last(), false)->0;
    if last_dotted {
        match dotted(parts[last]) {
            Some(bytes) => {
                push_bytes(out, &bytes);
                assert(out@ =~= before + (front + bytes@));
                return true;
            },
            None => {},
        }
    }
    match group(parts[last]) {
        Some(value) => {
            push_be16(out, value);
            assert(out@ =~= before + (front + bytes::be16_bytes(value as int)));
            true
        },
        None => false,
    }
}

/// Parts of which the first ones stand for nothing stand for nothing.
proof fn lemma_bad_front(parts: Seq<Seq<char>>, dotted: bool, length: int)
    requires
        0 <= length < parts.len(),
        parts_spec(parts.take(length), false) is None,
    ensures
        parts_spec(parts, dotted) is None,
    decreases parts.len(),
{
    if length == parts.len() - 1 {
        assert(parts.take(length) =~= parts.drop_last());
    } else {
        assert(parts.drop_last().take(length) =~= parts.take(length));
        lemma_bad_front(parts.drop_last(), false, length);
    }
}

/// Appends the bytes of one side of a double colon, if it stands for any.
fn push_side(out: &mut Vec<u8>, text: &str, last_dotted: bool) -> (pushed: bool)
    ensures
        match side_spec(text@, last_dotted) {
            Some(bytes) => pushed && final(out)@ == old(out)@ + bytes,
            None => !pushed,
        },
{
    if text.unicode_len() == 0 {
        assert(out@ =~= out@ + Seq::<u8>::empty());
        return true;
    }
    let parts = split(text, ':');
    push_parts(out, &parts, last_dotted)
}

fn double_colon(text: &str) -> (found: Option<usize>)
    ensures
        match found {
            Some(i) => first_double_colon(text@, i as int),
            None => forall|i: int| !double_colon_at(text@, i),
        },
{
    let length: usize = text.unicode_len();
    if length == 0 {
        return None;
    }
    let mut i: usize = 0;
    while i < length - 1
        invariant
            length == text@.len() > 0,
            i <= length,
            forall|k: int| 0 <= k < i ==> !double_colon_at(text@, k),
        decreases length - i,
    {
        if text.get_char(i) == ':' && text.get_char(i + 1) == ':' {
            return Some(i);
        }
        i += 1;
    }
    None
}

fn shortened(text: &str, at: usize) -> (address: Option<Ipv6Addr>)
    requires
        double_colon_at(text@, at as int),
    ensures
        match address {
            Some(address) => shortened_spec(text@, at as int) == Some(address@),
            None => shortened_spec(text@, at as int) is None,
        },
{
    let length: usize = text.unicode_len();
    let head_text = text.substring_char(0, at);
    let tail_text = text.substring_char(at + 2, length);
    proof {
        assert(head_text@ =~= text@.take(at as int));
        assert(tail_text@ =~= text@.skip(at + 2));
    }
    let mut address: Vec<u8> = Vec::new();
    if !push_side(&mut address, head_text, false) {
        return None;
    }
    let mut tail: Vec<u8> = Vec::new();
    if !push_side(&mut tail, tail_text, true) {
        return None;
    }
    let ghost head = side_spec(text@.take(at as int), false)->0;
    assert(address@ =~= head);
    assert(tail@ =~= side_spec(text@.skip(at + 2), true)->0);
    if address.len() > 14 || tail.len() > 14 - address.len() {
        return None;
    }
    let end: usize = 16 - tail.len();
    let ghost gap = bytes::zeros(16 - head.len() - tail@.len());
    address.resize(end, 0);
    assert(address@ =~= head + gap);
    push_bytes(&mut address, &tail);
    assert(address@ =~= head + gap + tail@);
    let octets = array16_at(&address, 0);
    assert(octets@ =~= address@);
    Some(Ipv6Addr { octets })
}

/// Reads an address.
pub fn read_address(text: &str) -> (address: Option<Ipv6Addr>)
    ensures
        match address {
            Some(address) => address_spec(text@) == Some(address@),
            None => address_spec(text@) is None,
        },
{
    match double_colon(text) {
        Some(at) => {
            proof {
                let chosen = choose|i: int| #[trigger] first_double_colon(text@, i);
                lemma_first_double_colon(text@, at as int, chosen);
            }
            shortened(text, at)
        },
        None => {
            let mut bytes: Vec<u8> = Vec::new();
            let parts = split(text, ':');
            if !push_parts(&mut bytes, &parts, true) {
                return None;
            }
            assert(bytes@ =~= parts_spec(text::split_spec(text@, ':'), true)->0);
            if bytes.len() != 16 {
                return None;
            }
            let octets = array16_at(&bytes, 0);
            assert(octets@ =~= bytes@);
            Some(Ipv6Addr { octets })
        },
    }
}

proof fn lemma_few_digits(digits: Seq<char>)
    requires
        digits.len() <= 4,
    ensures
        text::digits_spec(digits, 16) matches Some(value) ==> {
            &&& 0 <= value < 0x1_0000
            &&& digits.len() <= 3 ==> value < 0x1000
            &&& digits.len() <= 2 ==> value < 0x100
            &&& digits.len() <= 1 ==> value < 0x10
            &&& digits.len() == 0 ==> value == 0
        },
    decreases digits.len(),
{
    if digits.len() > 0 {
        lemma_few_digits(digits.drop_last());
        text::digit_values(digits.last(), 16);
    }
}

/// A group is one to four hexadecimal digits, and its two bytes make up what they are worth.
pub proof fn group_bytes(text: Seq<char>)
    ensures
        group_spec(text) is Some <==> {
            &&& 1 <= text.len() <= 4
            &&& forall|i: int|
                0 <= i < text.len() ==> text::digit_spec(#[trigger] text[i], 16) is Some
        },
        group_spec(text) matches Some(group) ==> group.len() == 2 && group[0] * 256 + group[1]
            == text::worth(text, 16),
        group_spec(text) is Some ==> !text.contains(':'),
{
    text::numbers_read(text, 16, 0xffff);
    if 1 <= text.len() <= 4 {
        lemma_few_digits(text);
        text::lemma_digits(text, 16);
        assert(text::digit_spec('+', 16) is None);
        assert(text::digit_spec(':', 16) is None);
        assert(text::digit_spec(text[0], 16) is Some || text::digit_spec(text[0], 16) is None);
    }
}

/// A decimal byte is one to three digits without leading zeros that are worth at most 255.
pub proof fn octet_values(text: Seq<char>)
    ensures
        octet_spec(text) is Some <==> {
            &&& 1 <= text.len() <= 3
            &&& text.len() > 1 ==> text[0] != '0'
            &&& forall|i: int|
                0 <= i < text.len() ==> text::digit_spec(#[trigger] text[i], 10) is Some
            &&& text::worth(text, 10) <= 255
        },
        octet_spec(text) matches Some(octet) ==> octet == text::worth(text, 10),
{
    text::numbers_read(text, 10, 255);
    if 1 <= text.len() <= 3 {
        assert(text::digit_spec('+', 10) is None);
        assert(text::digit_spec(text[0], 10) is Some || text::digit_spec(text[0], 10) is None);
    }
}

/// Four decimal bytes with dots between them are those four bytes, and nothing else is in dotted
/// form.
pub proof fn dotted_bytes(octets: Seq<Seq<char>>, text: Seq<char>)
    ensures
        octets.len() == 4 && (forall|i: int|
            0 <= i < 4 ==> octet_spec(#[trigger] octets[i]) is Some && !octets[i].contains('.'))
            ==> {
            let bytes = dotted_spec(text::joined_with(octets, '.'));
            &&& bytes is Some
            &&& bytes->0.len() == 4
            &&& forall|i: int|
                0 <= i < 4 ==> octet_spec(#[trigger] octets[i]) == Some(bytes->0[i] as int)
        },
        dotted_spec(text) matches Some(bytes) ==> {
            let parts = text::split_spec(text, '.');
            &&& bytes.len() == 4
            &&& parts.len() == 4
            &&& forall|i: int|
                0 <= i < 4 ==> octet_spec(#[trigger] parts[i]) == Some(bytes[i] as int)
        },
{
    if octets.len() == 4 && (forall|i: int|
        0 <= i < 4 ==> octet_spec(#[trigger] octets[i]) is Some && !octets[i].contains('.')) {
        text::split_of_joined(octets, '.');
        lemma_octets(octets);
    }
    lemma_octets(text::split_spec(text, '.'));
}

proof fn lemma_octets(parts: Seq<Seq<char>>)
    ensures
        forall|i: int|
            0 <= i < parts.len() && octet_spec(#[trigger] parts[i]) is Some ==> 0 <= octet_spec(
                parts[i],
            )->0 <= 255,
{
    assert forall|i: int|
        0 <= i < parts.len() && octet_spec(#[trigger] parts[i]) is Some implies 0 <= octet_spec(
        parts[i],
    )->0 <= 255 by {
        text::numbers_read(parts[i], 10, 255);
        lemma_worth_positive(parts[i]);
    }
}

proof fn lemma_worth_positive(digits: Seq<char>)
    ensures
        text::digits_spec(digits, 10) matches Some(value) ==> value >= 0,
    decreases digits.len(),
{
    if digits.len() > 0 {
        lemma_worth_positive(digits.drop_last());
        text::digit_values(digits.last(), 10);
    }
}

/// The bytes of groups are those of each group in turn; the last part may give four bytes in dotted
/// form instead, where that is allowed.
pub proof fn parts_bytes(parts: Seq<Seq<char>>, dotted: bool)
    ensures
        parts_spec(parts, false) is Some <==> forall|k: int|
            0 <= k < parts.len() ==> group_spec(#[trigger] parts[k]) is Some,
        parts_spec(parts, false) matches Some(bytes) ==> {
            &&& bytes.len() == 2 * parts.len()
            &&& forall|k: int|
                0 <= k < parts.len() ==> group_spec(#[trigger] parts[k]) == Some(
                    bytes.subrange(2 * k, 2 * k + 2),
                )
        },
        parts.len() > 0 && dotted_spec(parts.last()) is Some ==> parts_spec(parts, true) == match (
            parts_spec(parts.drop_last(), false),
            dotted_spec(parts.last()),
        ) {
            (Some(front), Some(last)) => Some(front + last),
            _ => None,
        },
        parts.len() == 0 || dotted_spec(parts.last()) is None ==> parts_spec(parts, true)
            == parts_spec(parts, false),
    decreases parts.len(),
{
    if parts.len() > 0 {
        let front = parts.drop_last();
        let last = parts.last();
        parts_bytes(front, false);
        group_bytes(last);
        if parts_spec(parts, false) is Some {
            let bytes = parts_spec(parts, false)->0;
            let before = parts_spec(front, false)->0;
            assert forall|k: int| 0 <= k < parts.len() implies group_spec(#[trigger] parts[k])
                == Some(bytes.subrange(2 * k, 2 * k + 2)) by {
                if k < front.len() {
                    assert(front[k] == parts[k]);
                    assert(bytes.subrange(2 * k, 2 * k + 2) =~= before.subrange(2 * k, 2 * k + 2));
                } else {
                    assert(bytes.subrange(2 * k, 2 * k + 2) =~= group_spec(last)->0);
                }
            }
        }
        if forall|k: int| 0 <= k < parts.len() ==> group_spec(#[trigger] parts[k]) is Some {
            assert forall|k: int| 0 <= k < front.len() implies group_spec(
                #[trigger] front[k],
            ) is Some by {
                assert(front[k] == parts[k]);
            }
            assert(group_spec(parts[parts.len() - 1]) is Some);
        }
    }
}

/// Whether texts can stand between colons: none is empty, and none has a colon in it.
pub open spec fn between_colons(parts: Seq<Seq<char>>) -> bool {
    forall|i: int|
        0 <= i < parts.len() ==> (#[trigger] parts[i]).len() > 0 && !parts[i].contains(':')
}

proof fn lemma_no_double_colon(parts: Seq<Seq<char>>)
    requires
        parts.len() > 0,
        between_colons(parts),
    ensures
        ({
            let text = text::joined_with(parts, ':');
            &&& text.len() > 0
            &&& text[0] != ':'
            &&& text.last() != ':'
            &&& forall|i: int| !double_colon_at(text, i)
        }),
    decreases parts.len(),
{
    let text = text::joined_with(parts, ':');
    let first = parts[0];
    assert forall|k: int| 0 <= k < first.len() implies first[k] != ':' by {
        assert(first.contains(first[k]));
    }
    if parts.len() > 1 {
        let rest = parts.skip(1);
        assert forall|i: int| 0 <= i < rest.len() implies (#[trigger] rest[i]).len() > 0
            && !rest[i].contains(':') by {
            assert(rest[i] == parts[i + 1]);
        }
        lemma_no_double_colon(rest);
        let tail = text::joined_with(rest, ':');
        assert(text =~= first + seq![':'] + tail);
        assert forall|i: int| !double_colon_at(text, i) by {
            if 0 <= i < text.len() - 1 {
                if i < first.len() {
                    assert(text[i] == first[i]);
                } else if i == first.len() {
                    assert(text[i + 1] == tail[0]);
                } else {
                    let k = i - first.len() - 1;
                    assert(text[i] == tail[k] && text[i + 1] == tail[k + 1]);
                    assert(!double_colon_at(tail, k));
                }
            }
        }
    }
}

/// An address is sixteen bytes.
pub proof fn addresses_are_whole(text: Seq<char>)
    ensures
        address_spec(text) matches Some(address) ==> address.len() == 16,
{
}

/// Parts with colons between them stand for an address exactly if their bytes are sixteen, and
/// those are then the address.
pub proof fn full_addresses(parts: Seq<Seq<char>>)
    requires
        parts.len() > 0,
        between_colons(parts),
    ensures
        ({
            let text = text::joined_with(parts, ':');
            match parts_spec(parts, true) {
                Some(bytes) => if bytes.len() == 16 {
                    address_spec(text) == Some(bytes)
                } else {
                    address_spec(text) is None
                },
                None => address_spec(text) is None,
            }
        }),
{
    let text = text::joined_with(parts, ':');
    lemma_no_double_colon(parts);
    assert(forall|i: int| !double_colon_at(text, i));
    assert forall|i: int| !(#[trigger] first_double_colon(text, i)) by {
        assert(!double_colon_at(text, i));
    }
    assert forall|i: int| 0 <= i < parts.len() implies !(#[trigger] parts[i]).contains(':') by {
        assert(parts[i].len() > 0);
    }
    text::split_of_joined(parts, ':');
}

/// A double colon between two rows of parts, each of which may be empty, stands for as many zero
/// bytes as are missing to sixteen, which must be two at least.
pub proof fn shortened_addresses(head: Seq<Seq<char>>, tail: Seq<Seq<char>>)
    requires
        between_colons(head),
        between_colons(tail),
    ensures
        ({
            let text = around_double_colon(head, tail);
            match (parts_spec(head, false), parts_spec(tail, true)) {
                (Some(before), Some(behind)) => if before.len() + behind.len() <= 14 {
                    &&& address_spec(text) matches Some(address) && address.len() == 16
                        && address.take(before.len() as int) == before && address.skip(
                        16 - behind.len(),
                    ) == behind && forall|k: int|
                        before.len() <= k < 16 - behind.len() ==> #[trigger] address[k] == 0
                } else {
                    address_spec(text) is None
                },
                _ => address_spec(text) is None,
            }
        }),
{
    let left = text::joined_with(head, ':');
    let right = text::joined_with(tail, ':');
    let text = around_double_colon(head, tail);
    let at = left.len() as int;
    if head.len() > 0 {
        lemma_no_double_colon(head);
    }
    assert(double_colon_at(text, at));
    assert forall|k: int| 0 <= k < at implies !double_colon_at(text, k) by {
        assert(text[k] == left[k]);
        if k + 1 < at {
            assert(text[k + 1] == left[k + 1]);
            assert(!double_colon_at(left, k));
        }
    }
    assert(first_double_colon(text, at));
    let chosen = choose|i: int| #[trigger] first_double_colon(text, i);
    lemma_first_double_colon(text, at, chosen);
    assert(text.take(at) =~= left);
    assert(text.skip(at + 2) =~= right);
    lemma_side(head, false);
    lemma_side(tail, true);
    if parts_spec(head, false) is Some && parts_spec(tail, true) is Some {
        let before = parts_spec(head, false)->0;
        let behind = parts_spec(tail, true)->0;
        if before.len() + behind.len() <= 14 {
            let address = address_spec(text)->0;
            assert(address.take(before.len() as int) =~= before);
            assert(address.skip(16 - behind.len()) =~= behind);
        }
    }
}

proof fn lemma_side(parts: Seq<Seq<char>>, dotted: bool)
    requires
        between_colons(parts),
    ensures
        side_spec(text::joined_with(parts, ':'), dotted) == parts_spec(parts, dotted),
{
    if parts.len() > 0 {
        lemma_no_double_colon(parts);
        assert forall|i: int| 0 <= i < parts.len() implies !(#[trigger] parts[i]).contains(':') by {
            assert(parts[i].len() > 0);
        }
        text::split_of_joined(parts, ':');
    }
}

proof fn lemma_parts_not_empty(parts: Seq<Seq<char>>, dotted: bool)
    requires
        parts_spec(parts, dotted) is Some,
    ensures
        forall|i: int| 0 <= i < parts.len() ==> (#[trigger] parts[i]).len() > 0,
    decreases parts.len(),
{
    if parts.len() > 0 {
        let front = parts.drop_last();
        let last = parts.last();
        lemma_parts_not_empty(front, false);
        if last.len() == 0 {
            last.index_of_first_ensures('.');
            assert(text::split_spec(last, '.') =~= seq![last]);
        }
        assert forall|i: int| 0 <= i < parts.len() implies (#[trigger] parts[i]).len() > 0 by {
            if i < front.len() {
                assert(front[i] == parts[i]);
            }
        }
    }
}

/// The parts between the colons of a text, of which there are none if it is empty.
pub open spec fn colon_parts(text: Seq<char>) -> Seq<Seq<char>> {
    if text.len() == 0 {
        Seq::empty()
    } else {
        text::split_spec(text, ':')
    }
}

proof fn lemma_colon_parts(text: Seq<char>, dotted: bool)
    requires
        side_spec(text, dotted) is Some,
    ensures
        between_colons(colon_parts(text)),
        text::joined_with(colon_parts(text), ':') == text,
{
    let parts = colon_parts(text);
    if text.len() > 0 {
        text::split_rejoins(text, ':');
        lemma_parts_not_empty(parts, dotted);
        assert forall|i: int| 0 <= i < parts.len() implies (#[trigger] parts[i]).len() > 0
            && !parts[i].contains(':') by {
            assert(!text::split_spec(text, ':')[i].contains(':'));
        }
    } else {
        assert(text =~= Seq::empty());
    }
}

/// A text that stands for an address is parts with colons between them, or two rows of such parts
/// with a double colon between them.
pub proof fn forms_of_addresses(text: Seq<char>)
    requires
        address_spec(text) is Some,
    ensures
        exists|head: Seq<Seq<char>>, tail: Seq<Seq<char>>|
            {
                &&& between_colons(head)
                &&& between_colons(tail)
                &&& text == text::joined_with(head, ':') || text == #[trigger] around_double_colon(
                    head,
                    tail,
                )
            },
{
    if exists|i: int| #[trigger] first_double_colon(text, i) {
        let i = choose|i: int| #[trigger] first_double_colon(text, i);
        let head = colon_parts(text.take(i));
        let tail = colon_parts(text.skip(i + 2));
        lemma_colon_parts(text.take(i), false);
        lemma_colon_parts(text.skip(i + 2), true);
        assert(text =~= around_double_colon(head, tail));
    } else {
        let parts = text::split_spec(text, ':');
        text::split_rejoins(text, ':');
        lemma_parts_not_empty(parts, true);
        assert(between_colons(parts)) by {
            assert forall|i: int| 0 <= i < parts.len() implies (#[trigger] parts[i]).len() > 0
                && !parts[i].contains(':') by {
                assert(!text::split_spec(text, ':')[i].contains(':'));
            }
        }
        let witness = around_double_colon(parts, parts);
        assert(text == text::joined_with(parts, ':') || text == witness);
    }
}

/// Two rows of parts with a double colon between them.
pub open spec fn around_double_colon(head: Seq<Seq<char>>, tail: Seq<Seq<char>>) -> Seq<char> {
    text::joined_with(head, ':') + seq![':', ':'] + text::joined_with(tail, ':')
}

} // verus!
