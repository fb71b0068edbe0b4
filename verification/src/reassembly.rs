//! IPv6 fragment reassembly with bounded memory use.

use crate::bytes::{push_bytes, same_bytes};
use crate::clock;
use crate::clock::Clock;
use vstd::prelude::*;

verus! {

pub const MAX_PACKET: usize = 65_535;

/// Packets that may wait for fragments at one time.
pub const MAX_PENDING: usize = 1024;

/// Fragments that one packet may consist of.
pub const MAX_FRAGMENTS: usize = 128;

/// How long a packet waits for its next fragment, in nanoseconds.
pub const FRAGMENT_AGE: u128 = 60_000_000_000;

/// Source, destination and identification of a fragmented packet.
pub type FragmentKey = ([u8; 16], [u8; 16], u32);

/// What a key stands for.
pub type Flow = (Seq<u8>, Seq<u8>, u32);

/// The source, the destination and the identification that make up a key.
pub open spec fn flow(key: FragmentKey) -> Flow {
    (key.0@, key.1@, key.2)
}

/// A fragment: its offset and its bytes.
pub type Piece = (int, Seq<u8>);

/// What is known of a packet of which fragments are missing.
pub struct Pending {
    pub updated: int,
    pub total: Option<int>,
    pub fragments: Seq<Piece>,
}

/// Whether the bytes from `offset` up to `end` run into a fragment that is there.
pub open spec fn overlaps(fragments: Seq<Piece>, offset: int, end: int) -> bool {
    exists|i: int|
        0 <= i < fragments.len() && offset < #[trigger] fragments[i].0 + fragments[i].1.len()
            && fragments[i].0 < end
}

/// Whether the fragments stand in the order of their offsets.
pub open spec fn in_order(fragments: Seq<Piece>) -> bool {
    forall|i: int, j: int|
        0 <= i <= j < fragments.len() ==> #[trigger] fragments[i].0 <= #[trigger] fragments[j].0
}

/// Where a fragment at `offset` goes: behind every fragment that starts no later.
pub open spec fn slot(fragments: Seq<Piece>, offset: int) -> int
    decreases fragments.len(),
{
    if fragments.len() == 0 {
        0
    } else if fragments.last().0 <= offset {
        fragments.len() as int
    } else {
        slot(fragments.drop_last(), offset)
    }
}

/// The end of the fragments if they follow one another from offset zero without a gap.
pub open spec fn contiguous_end(fragments: Seq<Piece>) -> Option<int>
    decreases fragments.len(),
{
    if fragments.len() == 0 {
        Some(0)
    } else if contiguous_end(fragments.drop_last()) == Some(fragments.last().0) {
        Some(fragments.last().0 + fragments.last().1.len())
    } else {
        None
    }
}

/// The bytes of the fragments, one after the other.
pub open spec fn joined(fragments: Seq<Piece>) -> Seq<u8>
    decreases fragments.len(),
{
    if fragments.len() == 0 {
        Seq::empty()
    } else {
        joined(fragments.drop_last()) + fragments.last().1
    }
}

/// A packet after one more fragment has been added to it.
pub open spec fn extended(
    pending: Pending,
    offset: int,
    more: bool,
    data: Seq<u8>,
    now: int,
) -> Pending {
    Pending {
        updated: now,
        total: if more {
            pending.total
        } else {
            Some(offset + data.len())
        },
        fragments: pending.fragments.insert(slot(pending.fragments, offset), (offset, data)),
    }
}

/// Whether every byte up to the end of the packet is there.
pub open spec fn complete(pending: Pending) -> bool {
    pending.total is Some && contiguous_end(pending.fragments) == pending.total
}

/// What the arrival of a fragment at time `now` makes of the packets that wait, and the
/// packet that it completes.
pub open spec fn arrival(
    packets: Map<Flow, Pending>,
    key: Flow,
    offset: int,
    more: bool,
    data: Seq<u8>,
    now: int,
) -> (Map<Flow, Pending>, Option<Seq<u8>>) {
    let end = offset + data.len();
    let pending = if packets.contains_key(key) {
        packets[key]
    } else {
        Pending { updated: now, total: None, fragments: Seq::empty() }
    };
    if more && data.len() % 8 != 0 {
        (packets.remove(key), None)
    } else if end > usize::MAX {
        (packets, None)
    } else if end > MAX_PACKET {
        (packets.remove(key), None)
    } else if packets.len() >= MAX_PENDING && !packets.contains_key(key) {
        (packets, None)
    } else if pending.fragments.len() >= MAX_FRAGMENTS || overlaps(pending.fragments, offset, end) {
        (packets.remove(key), None)
    } else {
        let next = extended(pending, offset, more, data, now);
        if complete(next) {
            (packets.remove(key), Some(joined(next.fragments)))
        } else {
            (packets.insert(key, next), None)
        }
    }
}

/// The packets whose last fragment came less than [`FRAGMENT_AGE`] before `now`.
pub open spec fn unexpired(packets: Map<Flow, Pending>, now: int) -> Map<
    Flow,
    Pending,
> {
    packets.restrict(
        Set::new(|key: Flow| packets.contains_key(key) && now - packets[key].updated < FRAGMENT_AGE),
    )
}

/// A packet of which fragments are missing.
struct Partial {
    key: FragmentKey,
    updated: u128,
    total: Option<usize>,
    fragments: Vec<(usize, Vec<u8>)>,
}

spec fn piece(fragment: (usize, Vec<u8>)) -> Piece {
    (fragment.0 as int, fragment.1@)
}

spec fn pieces(fragments: Seq<(usize, Vec<u8>)>) -> Seq<Piece> {
    fragments.map_values(|fragment: (usize, Vec<u8>)| piece(fragment))
}

impl Partial {
    spec fn model(self) -> Pending {
        Pending {
            updated: self.updated as int,
            total: match self.total {
                Some(total) => Some(total as int),
                None => None,
            },
            fragments: pieces(self.fragments@),
        }
    }

    spec fn wf(self) -> bool {
        &&& self.fragments@.len() <= MAX_FRAGMENTS
        &&& in_order(pieces(self.fragments@))
        &&& forall|i: int|
            0 <= i < self.fragments@.len() ==> #[trigger] self.fragments@[i].0
                + self.fragments@[i].1@.len() <= MAX_PACKET
    }
}

spec fn distinct(partials: Seq<Partial>) -> bool {
    forall|i: int, j: int|
        0 <= i < j < partials.len() ==> flow(#[trigger] partials[i].key) != flow(#[trigger] partials[j].key)
}

spec fn holds(partials: Seq<Partial>, key: Flow) -> bool {
    exists|i: int| 0 <= i < partials.len() && flow(#[trigger] partials[i].key) == key
}

spec fn packets_of(partials: Seq<Partial>) -> Map<Flow, Pending> {
    Map::new(
        |key: Flow| holds(partials, key),
        |key: Flow|
            {
                let i = choose|i: int| 0 <= i < partials.len() && flow(#[trigger] partials[i].key) == key;
                partials[i].model()
            },
    )
}

proof fn lemma_packet_at(partials: Seq<Partial>, i: int)
    requires
        distinct(partials),
        0 <= i < partials.len(),
    ensures
        packets_of(partials).contains_key(flow(partials[i].key)),
        packets_of(partials)[flow(partials[i].key)] == partials[i].model(),
{
    let key = flow(partials[i].key);
    assert(holds(partials, key));
    let k = choose|k: int| 0 <= k < partials.len() && flow(#[trigger] partials[k].key) == key;
    assert(k == i);
}

proof fn lemma_push(partials: Seq<Partial>, partial: Partial)
    requires
        distinct(partials),
        !holds(partials, flow(partial.key)),
    ensures
        distinct(partials.push(partial)),
        packets_of(partials.push(partial)) == packets_of(partials).insert(
            flow(partial.key),
            partial.model(),
        ),
{
    let next = partials.push(partial);
    assert(distinct(next)) by {
        assert forall|i: int, j: int| 0 <= i < j < next.len() implies flow(#[trigger] next[i].key)
            != flow(#[trigger] next[j].key) by {
            assert(flow(partials[i].key) != flow(partial.key));
        }
    }
    lemma_packet_at(next, partials.len() as int);
    assert forall|key: Flow| holds(next, key) == (holds(partials, key) || key == flow(partial.key)) by {
        if holds(partials, key) {
            let k = choose|k: int| 0 <= k < partials.len() && flow(#[trigger] partials[k].key) == key;
            assert(flow(next[k].key) == key);
        }
        if key == flow(partial.key) {
            assert(flow(next[partials.len() as int].key) == key);
        }
        if holds(next, key) {
            let k = choose|k: int| 0 <= k < next.len() && flow(#[trigger] next[k].key) == key;
            if k < partials.len() {
                assert(flow(partials[k].key) == key);
            }
        }
    }
    assert forall|key: Flow| #[trigger] holds(partials, key) implies packets_of(next)[key]
        == packets_of(partials)[key] by {
        let k = choose|k: int| 0 <= k < partials.len() && flow(#[trigger] partials[k].key) == key;
        assert(flow(next[k].key) == key);
        lemma_packet_at(partials, k);
        lemma_packet_at(next, k);
    }
    assert(packets_of(next) =~= packets_of(partials).insert(flow(partial.key), partial.model()));
}

proof fn lemma_swap_remove(partials: Seq<Partial>, i: int)
    requires
        distinct(partials),
        0 <= i < partials.len(),
    ensures
        ({
            let next = partials.update(i, partials.last()).drop_last();
            &&& distinct(next)
            &&& !holds(next, flow(partials[i].key))
            &&& packets_of(next) == packets_of(partials).remove(flow(partials[i].key))
        }),
{
    let next = partials.update(i, partials.last()).drop_last();
    let gone = flow(partials[i].key);
    let last = partials.len() - 1;
    assert forall|key: Flow| holds(next, key) == (holds(partials, key) && key != gone) by {
        if holds(partials, key) && key != gone {
            let k = choose|k: int| 0 <= k < partials.len() && flow(#[trigger] partials[k].key) == key;
            if k == last {
                assert(flow(next[i].key) == key);
            } else {
                assert(flow(next[k].key) == key);
            }
        }
        if holds(next, key) {
            let k = choose|k: int| 0 <= k < next.len() && flow(#[trigger] next[k].key) == key;
            if k == i {
                assert(flow(partials[last].key) == key);
            } else {
                assert(flow(partials[k].key) == key);
            }
        }
    }
    assert forall|key: Flow| #[trigger] holds(next, key) implies packets_of(next)[key]
        == packets_of(partials)[key] by {
        let k = choose|k: int| 0 <= k < next.len() && flow(#[trigger] next[k].key) == key;
        lemma_packet_at(next, k);
        if k == i {
            lemma_packet_at(partials, last);
        } else {
            lemma_packet_at(partials, k);
        }
    }
    assert(packets_of(next) =~= packets_of(partials).remove(gone));
}

proof fn lemma_count(partials: Seq<Partial>)
    requires
        distinct(partials),
    ensures
        packets_of(partials).dom().finite(),
        packets_of(partials).len() == partials.len(),
{
    let keys = partials.map_values(|partial: Partial| flow(partial.key));
    assert(keys.no_duplicates());
    assert(packets_of(partials).dom() =~= keys.to_set()) by {
        assert forall|key: Flow| holds(partials, key) == keys.contains(key) by {
            if holds(partials, key) {
                let k = choose|k: int| 0 <= k < partials.len() && flow(#[trigger] partials[k].key) == key;
                assert(keys[k] == key);
            }
            if keys.contains(key) {
                let k = choose|k: int| 0 <= k < keys.len() && keys[k] == key;
                assert(flow(partials[k].key) == key);
            }
        }
    }
    keys.unique_seq_to_set();
}

/// Reassembles out-of-order IPv6 fragments keyed by source, destination, and ID.
pub struct Reassembly {
    clock: Clock,
    partials: Vec<Partial>,
}

impl View for Reassembly {
    type V = Map<Flow, Pending>;

    closed spec fn view(&self) -> Map<Flow, Pending> {
        packets_of(self.partials@)
    }
}

/// Whether two keys name the same packet.
fn same_key(left: &FragmentKey, right: &FragmentKey) -> (same: bool)
    ensures
        same == (flow(*left) == flow(*right)),
{
    left.2 == right.2 && same_bytes(&left.0, &right.0) && same_bytes(&left.1, &right.1)
}

impl Reassembly {
    /// The clock that the packets go by.
    pub closed spec fn clock(&self) -> Clock {
        self.clock
    }

    /// No two entries for one packet, and the limits on packets and fragments are kept.
    pub closed spec fn wf(&self) -> bool {
        &&& distinct(self.partials@)
        &&& self.partials@.len() <= MAX_PENDING
        &&& forall|i: int| 0 <= i < self.partials@.len() ==> (#[trigger] self.partials@[i]).wf()
    }

    fn find(&self, key: &FragmentKey) -> (found: Option<usize>)
        requires
            self.wf(),
        ensures
            match found {
                Some(i) => i < self.partials@.len() && flow(self.partials@[i as int].key) == flow(*key),
                None => !holds(self.partials@, flow(*key)),
            },
    {
        let mut i: usize = 0;
        while i < self.partials.len()
            invariant
                i <= self.partials@.len(),
                forall|k: int| 0 <= k < i ==> flow(#[trigger] self.partials@[k].key) != flow(*key),
            decreases self.partials@.len() - i,
        {
            if same_key(&self.partials[i].key, key) {
                return Some(i);
            }
            i += 1;
        }
        None
    }

    fn forget(&mut self, key: &FragmentKey)
        requires
            old(self).wf(),
        ensures
            final(self).wf(),
            final(self)@ == old(self)@.remove(flow(*key)),
            final(self).clock == old(self).clock,
    {
        match self.find(key) {
            Some(i) => {
                proof {
                    lemma_swap_remove(self.partials@, i as int);
                }
                self.partials.swap_remove(i);
            },
            None => {
                assert(self@.remove(flow(*key)) =~= self@);
            },
        }
    }

    /// An empty set of packets that takes its time from `clock`.
    pub fn with_clock(clock: Clock) -> (reassembly: Reassembly)
        ensures
            reassembly.wf(),
            reassembly@ == Map::<Flow, Pending>::empty(),
            reassembly.clock() == clock,
    {
        let reassembly = Reassembly { clock, partials: Vec::new() };
        assert(reassembly@ =~= Map::<Flow, Pending>::empty());
        reassembly
    }

    /// The time that the packets go by.
    pub fn now(&self) -> (now: u128)
        ensures
            now <= clock::last_tick(),
    {
        self.clock.nanos()
    }

    /// Returns the reassembled payload once every fragment has arrived, or `None`.
    pub fn insert(&mut self, key: FragmentKey, offset: usize, more: bool, data: &[u8]) -> (payload:
        Option<Vec<u8>>)
        requires
            old(self).wf(),
        ensures
            final(self).wf(),
            final(self).clock() == old(self).clock(),
            exists|now: u128|
                {
                    let (packets, complete) = #[trigger] arrival(
                        old(self)@,
                        flow(key),
                        offset as int,
                        more,
                        data@,
                        now as int,
                    );
                    &&& now <= clock::last_tick()
                    &&& final(self)@ == packets
                    &&& payload_view(payload) == complete
                },
            payload_view(payload) == arrival(
                old(self)@,
                flow(key),
                offset as int,
                more,
                data@,
                0,
            ).1,
    {
        let now = self.now();
        proof {
            answer_is_timeless(self@, flow(key), offset as int, more, data@, now as int, 0);
        }
        self.insert_at(key, offset, more, data, now)
    }

    /// Adds a fragment that arrives at time `now`.
    pub fn insert_at(
        &mut self,
        key: FragmentKey,
        offset: usize,
        more: bool,
        data: &[u8],
        now: u128,
    ) -> (payload: Option<Vec<u8>>)
        requires
            old(self).wf(),
        ensures
            final(self).wf(),
            final(self).clock() == old(self).clock(),
            (final(self)@, payload_view(payload)) == arrival(
                old(self)@,
                flow(key),
                offset as int,
                more,
                data@,
                now as int,
            ),
    {
        proof {
            lemma_count(self.partials@);
        }
        if more && data.len() % 8 != 0 {
            self.forget(&key);
            return None;
        }
        let end: usize = match offset.checked_add(data.len()) {
            Some(end) => end,
            None => {
                return None;
            },
        };
        if end > MAX_PACKET {
            self.forget(&key);
            return None;
        }
        let ghost packets = self@;
        let found = self.find(&key);
        proof {
            match found {
                Some(i) => lemma_packet_at(self.partials@, i as int),
                None => assert(!packets.contains_key(flow(key))),
            }
        }
        let mut partial = match found {
            Some(i) => {
                proof {
                    lemma_swap_remove(self.partials@, i as int);
                }
                self.partials.swap_remove(i)
            },
            None => {
                if self.partials.len() >= MAX_PENDING {
                    return None;
                }
                assert(packets.remove(flow(key)) =~= packets);
                Partial { key, updated: now, total: None, fragments: Vec::new() }
            },
        };
        let ghost pending = partial.model();
        assert(found is None ==> pending.fragments =~= Seq::empty());
        assert(self@ == packets.remove(flow(key)));
        if partial.fragments.len() >= MAX_FRAGMENTS {
            return None;
        }
        if overlapping(&partial.fragments, offset, end) {
            return None;
        }
        let at = place(&partial.fragments, offset);
        let copy = vstd::slice::slice_to_vec(data);
        partial.updated = now;
        if !more {
            partial.total = Some(end);
        }
        partial.fragments.insert(at, (offset, copy));
        let ghost next = extended(pending, offset as int, more, data@, now as int);
        proof {
            assert(pieces(partial.fragments@) =~= next.fragments);
            lemma_slot(pending.fragments, offset as int);
            assert(in_order(next.fragments));
        }
        let covered = run_end(&partial.fragments);
        match partial.total {
            Some(total) => {
                if covered == Some(total) {
                    return Some(concatenation(&partial.fragments));
                }
            },
            None => {},
        }
        proof {
            lemma_push(self.partials@, partial);
            assert(packets.remove(flow(key)).insert(flow(key), next) =~= packets.insert(flow(key), next));
        }
        self.partials.push(partial);
        None
    }

    /// Drops the packets that have waited too long for their next fragment.
    pub fn expire(&mut self)
        requires
            old(self).wf(),
        ensures
            final(self).wf(),
            final(self).clock() == old(self).clock(),
            exists|now: u128|
                now <= clock::last_tick() && final(self)@ == #[trigger] unexpired(
                    old(self)@,
                    now as int,
                ),
    {
        let now = self.now();
        self.expire_at(now);
    }

    /// Drops the packets that have waited too long at time `now`.
    pub fn expire_at(&mut self, now: u128)
        requires
            old(self).wf(),
        ensures
            final(self).wf(),
            final(self).clock() == old(self).clock(),
            final(self)@ == unexpired(old(self)@, now as int),
    {
        let mut i: usize = 0;
        while i < self.partials.len()
            invariant
                self.wf(),
                self.clock() == old(self).clock(),
                i <= self.partials@.len(),
                forall|k: int|
                    0 <= k < i ==> now - #[trigger] self.partials@[k].updated < FRAGMENT_AGE,
                unexpired(self@, now as int) == unexpired(old(self)@, now as int),
            decreases self.partials@.len() - i,
        {
            if now.saturating_sub(self.partials[i].updated) < FRAGMENT_AGE {
                i += 1;
            } else {
                let ghost before = self@;
                proof {
                    lemma_packet_at(self.partials@, i as int);
                    lemma_swap_remove(self.partials@, i as int);
                }
                self.partials.swap_remove(i);
                assert(unexpired(self@, now as int) =~= unexpired(before, now as int));
            }
        }
        assert(self@ =~= unexpired(self@, now as int)) by {
            assert forall|key: Flow| #[trigger] self@.contains_key(key) implies now
                - self@[key].updated < FRAGMENT_AGE by {
                let k = choose|k: int|
                    0 <= k < self.partials@.len() && flow(#[trigger] self.partials@[k].key) == key;
                lemma_packet_at(self.partials@, k);
            }
        }
    }

    /// The packets that wait, the fragments of each and the bytes of these are bounded.
    pub proof fn bounded(&self)
        requires
            self.wf(),
        ensures
            self@.dom().finite(),
            self@.len() <= 1024,
            forall|key: Flow| #[trigger]
                self@.contains_key(key) ==> self@[key].fragments.len() <= 128,
            forall|key: Flow, i: int|
                self@.contains_key(key) && 0 <= i < self@[key].fragments.len()
                    ==> #[trigger] self@[key].fragments[i].0 + self@[key].fragments[i].1.len()
                    <= 65_535,
            forall|key: Flow| #[trigger]
                self@.contains_key(key) ==> in_order(self@[key].fragments),
    {
        lemma_count(self.partials@);
        assert forall|key: Flow| #[trigger] self@.contains_key(key) implies {
            &&& self@[key].fragments.len() <= MAX_FRAGMENTS
            &&& in_order(self@[key].fragments)
            &&& forall|i: int|
                0 <= i < self@[key].fragments.len() ==> #[trigger] self@[key].fragments[i].0
                    + self@[key].fragments[i].1.len() <= MAX_PACKET
        } by {
            let k = choose|k: int|
                0 <= k < self.partials@.len() && flow(#[trigger] self.partials@[k].key) == key;
            lemma_packet_at(self.partials@, k);
        }
    }
}

impl Default for Reassembly {
    fn default() -> (reassembly: Self)
        ensures
            reassembly.wf(),
            reassembly@ == Map::<Flow, Pending>::empty(),
    {
        Reassembly::with_clock(Clock::start())
    }
}

/// The bytes of a payload that has been put together.
pub open spec fn payload_view(payload: Option<Vec<u8>>) -> Option<Seq<u8>> {
    match payload {
        Some(bytes) => Some(bytes@),
        None => None,
    }
}

proof fn lemma_slot(fragments: Seq<Piece>, offset: int)
    requires
        in_order(fragments),
    ensures
        0 <= slot(fragments, offset) <= fragments.len(),
        forall|i: int|
            0 <= i < slot(fragments, offset) ==> #[trigger] fragments[i].0 <= offset,
        forall|i: int|
            slot(fragments, offset) <= i < fragments.len() ==> offset < #[trigger] fragments[i].0,
    decreases fragments.len(),
{
    if fragments.len() > 0 && fragments.last().0 > offset {
        let front = fragments.drop_last();
        assert(in_order(front));
        lemma_slot(front, offset);
        assert forall|i: int| 0 <= i < slot(fragments, offset) implies #[trigger] fragments[i].0
            <= offset by {
            assert(front[i] == fragments[i]);
        }
        assert forall|i: int|
            slot(fragments, offset) <= i < fragments.len() implies offset
            < #[trigger] fragments[i].0 by {
            if i < front.len() {
                assert(front[i] == fragments[i]);
            }
        }
    }
}

fn overlapping(fragments: &Vec<(usize, Vec<u8>)>, offset: usize, end: usize) -> (found: bool)
    requires
        forall|i: int|
            0 <= i < fragments@.len() ==> #[trigger] fragments@[i].0 + fragments@[i].1@.len()
                <= MAX_PACKET,
    ensures
        found == overlaps(pieces(fragments@), offset as int, end as int),
{
    let mut i: usize = 0;
    while i < fragments.len()
        invariant
            i <= fragments@.len(),
            forall|k: int|
                0 <= k < fragments@.len() ==> #[trigger] fragments@[k].0 + fragments@[k].1@.len()
                    <= MAX_PACKET,
            forall|k: int|
                0 <= k < i ==> !(offset < #[trigger] pieces(fragments@)[k].0
                    + pieces(fragments@)[k].1.len() && pieces(fragments@)[k].0 < end),
        decreases fragments@.len() - i,
    {
        let start: usize = fragments[i].0;
        let length: usize = fragments[i].1.len();
        assert(pieces(fragments@)[i as int].0 == start);
        assert(pieces(fragments@)[i as int].1.len() == length);
        if offset < start + length && start < end {
            return true;
        }
        i += 1;
    }
    false
}

fn place(fragments: &Vec<(usize, Vec<u8>)>, offset: usize) -> (at: usize)
    ensures
        at == slot(pieces(fragments@), offset as int),
        at <= fragments@.len(),
{
    let mut at: usize = fragments.len();
    assert(pieces(fragments@).take(at as int) =~= pieces(fragments@));
    while at > 0
        invariant
            at <= fragments@.len(),
            slot(pieces(fragments@), offset as int) == slot(
                pieces(fragments@).take(at as int),
                offset as int,
            ),
        decreases at,
    {
        let ghost front = pieces(fragments@).take(at as int);
        assert(front.last() == piece(fragments@[at - 1]));
        if fragments[at - 1].0 <= offset {
            return at;
        }
        at -= 1;
        assert(front.drop_last() =~= pieces(fragments@).take(at as int));
    }
    at
}

fn run_end(fragments: &Vec<(usize, Vec<u8>)>) -> (end: Option<usize>)
    requires
        forall|i: int|
            0 <= i < fragments@.len() ==> #[trigger] fragments@[i].0 + fragments@[i].1@.len()
                <= MAX_PACKET,
    ensures
        match end {
            Some(end) => contiguous_end(pieces(fragments@)) == Some(end as int),
            None => contiguous_end(pieces(fragments@)) is None,
        },
{
    let mut end: usize = 0;
    let mut i: usize = 0;
    while i < fragments.len()
        invariant
            i <= fragments@.len(),
            forall|k: int|
                0 <= k < fragments@.len() ==> #[trigger] fragments@[k].0 + fragments@[k].1@.len()
                    <= MAX_PACKET,
            contiguous_end(pieces(fragments@).take(i as int)) == Some(end as int),
        decreases fragments@.len() - i,
    {
        let ghost front = pieces(fragments@).take(i + 1);
        assert(front.drop_last() =~= pieces(fragments@).take(i as int));
        assert(front.last() == piece(fragments@[i as int]));
        if fragments[i].0 != end {
            proof {
                lemma_gap(pieces(fragments@), i + 1);
            }
            return None;
        }
        end = end + fragments[i].1.len();
        i += 1;
    }
    assert(pieces(fragments@).take(i as int) =~= pieces(fragments@));
    Some(end)
}

proof fn lemma_gap(fragments: Seq<Piece>, length: int)
    requires
        0 <= length <= fragments.len(),
        contiguous_end(fragments.take(length)) is None,
    ensures
        contiguous_end(fragments) is None,
    decreases fragments.len(),
{
    if length == fragments.len() {
        assert(fragments.take(length) =~= fragments);
    } else {
        assert(fragments.drop_last().take(length) =~= fragments.take(length));
        lemma_gap(fragments.drop_last(), length);
    }
}

fn concatenation(fragments: &Vec<(usize, Vec<u8>)>) -> (bytes: Vec<u8>)
    ensures
        bytes@ == joined(pieces(fragments@)),
{
    let mut bytes: Vec<u8> = Vec::new();
    let mut i: usize = 0;
    while i < fragments.len()
        invariant
            i <= fragments@.len(),
            bytes@ == joined(pieces(fragments@).take(i as int)),
        decreases fragments@.len() - i,
    {
        let ghost front = pieces(fragments@).take(i + 1);
        assert(front.drop_last() =~= pieces(fragments@).take(i as int));
        assert(front.last() == piece(fragments@[i as int]));
        push_bytes(&mut bytes, &fragments[i].1);
        i += 1;
    }
    assert(pieces(fragments@).take(i as int) =~= pieces(fragments@));
    bytes
}

/// Whether `cuts` divides `payload` into fragments: it rises from zero to the length of the
/// payload, and every fragment but the last has a multiple of eight bytes.
pub open spec fn divides(cuts: Seq<int>, payload: Seq<u8>) -> bool {
    &&& cuts.len() >= 2
    &&& cuts[0] == 0
    &&& cuts.last() == payload.len()
    &&& forall|i: int, j: int| 0 <= i < j < cuts.len() ==> #[trigger] cuts[i] < #[trigger] cuts[j]
    &&& forall|i: int|
        0 <= i < cuts.len() - 2 ==> (#[trigger] cut_bytes(cuts, payload, i)).len() % 8 == 0
}

/// The bytes of the fragment between one cut and the next.
pub open spec fn cut_bytes(cuts: Seq<int>, payload: Seq<u8>, i: int) -> Seq<u8> {
    payload.subrange(cuts[i], cuts[i + 1])
}

/// What comes of the fragments of `payload` that arrive in the given order, each at its time:
/// the packets that wait and the answer to the last arrival.
pub open spec fn delivery(
    packets: Map<Flow, Pending>,
    key: Flow,
    payload: Seq<u8>,
    cuts: Seq<int>,
    order: Seq<int>,
    times: Seq<int>,
) -> (Map<Flow, Pending>, Option<Seq<u8>>)
    decreases order.len(),
{
    if order.len() == 0 {
        (packets, None)
    } else {
        let before = delivery(packets, key, payload, cuts, order.drop_last(), times).0;
        let i = order.last();
        arrival(
            before,
            key,
            cuts[i],
            i < cuts.len() - 2,
            cut_bytes(cuts, payload, i),
            times[order.len() - 1],
        )
    }
}

spec fn rising(indices: Seq<int>) -> bool {
    forall|i: int, j: int|
        0 <= i < j < indices.len() ==> #[trigger] indices[i] < #[trigger] indices[j]
}

spec fn chosen(indices: Seq<int>, cuts: Seq<int>, payload: Seq<u8>) -> Seq<Piece> {
    indices.map_values(|i: int| (cuts[i], cut_bytes(cuts, payload, i)))
}

proof fn lemma_chosen_end(indices: Seq<int>, cuts: Seq<int>, payload: Seq<u8>)
    requires
        divides(cuts, payload),
        rising(indices),
        forall|i: int| 0 <= i < indices.len() ==> 0 <= #[trigger] indices[i] < cuts.len() - 1,
    ensures
        indices.len() <= cuts.len() - 1,
        contiguous_end(chosen(indices, cuts, payload)) is Some ==> {
            &&& contiguous_end(chosen(indices, cuts, payload)) == Some(cuts[indices.len() as int])
            &&& forall|i: int| 0 <= i < indices.len() ==> #[trigger] indices[i] == i
        },
        indices.len() == cuts.len() - 1 ==> {
            &&& contiguous_end(chosen(indices, cuts, payload)) is Some
        },
        (forall|i: int| 0 <= i < indices.len() ==> #[trigger] indices[i] == i) ==> {
            &&& contiguous_end(chosen(indices, cuts, payload)) is Some
            &&& joined(chosen(indices, cuts, payload)) == payload.take(cuts[indices.len() as int])
        },
    decreases indices.len(),
{
    let fragments = chosen(indices, cuts, payload);
    lemma_rising_bound(indices, cuts.len() - 1);
    if indices.len() > 0 {
        let front = indices.drop_last();
        assert forall|i: int| 0 <= i < front.len() implies 0 <= #[trigger] front[i] < cuts.len()
            - 1 by {
            assert(front[i] == indices[i]);
        }
        lemma_chosen_end(front, cuts, payload);
        assert(chosen(front, cuts, payload) =~= fragments.drop_last());
        let last = indices.last();
        let k = indices.len() - 1;
        assert(fragments.last() == (cuts[last], cut_bytes(cuts, payload, last)));
        assert(0 <= cuts[last] < cuts[last + 1] <= payload.len());
        if contiguous_end(fragments) is Some {
            assert(cuts[last] == cuts[k]);
            assert(last == k);
            assert forall|i: int| 0 <= i < indices.len() implies #[trigger] indices[i] == i by {
                if i < k {
                    assert(front[i] == indices[i]);
                }
            }
        }
        if forall|i: int| 0 <= i < indices.len() ==> #[trigger] indices[i] == i {
            assert forall|i: int| 0 <= i < front.len() implies #[trigger] front[i] == i by {
                assert(front[i] == indices[i]);
            }
            assert(last == k);
            assert(payload.take(cuts[k]) + cut_bytes(cuts, payload, k) =~= payload.take(cuts[k + 1]));
        }
        if indices.len() == cuts.len() - 1 {
            assert forall|i: int| 0 <= i < indices.len() implies #[trigger] indices[i] == i by {
                lemma_rising_exact(indices, i);
            }
        }
    } else {
        assert(payload.take(0) =~= Seq::empty());
    }
}

proof fn lemma_rising_bound(indices: Seq<int>, bound: int)
    requires
        rising(indices),
        bound >= 0,
        forall|i: int| 0 <= i < indices.len() ==> 0 <= #[trigger] indices[i] < bound,
    ensures
        indices.len() <= bound,
    decreases indices.len(),
{
    if indices.len() > 0 {
        let front = indices.drop_last();
        assert forall|i: int| 0 <= i < front.len() implies 0 <= #[trigger] front[i]
            < indices.last() by {
            assert(front[i] == indices[i]);
        }
        lemma_rising_bound(front, indices.last());
    }
}

proof fn lemma_rising_exact(indices: Seq<int>, i: int)
    requires
        rising(indices),
        0 <= i < indices.len(),
        forall|k: int| 0 <= k < indices.len() ==> 0 <= #[trigger] indices[k] < indices.len(),
    ensures
        indices[i] == i,
{
    let low = indices.take(i);
    assert forall|k: int| 0 <= k < low.len() implies 0 <= #[trigger] low[k] < indices[i] by {
        assert(low[k] == indices[k]);
    }
    lemma_rising_bound(low, indices[i]);
    let shift = indices[i] + 1;
    let high = indices.skip(i + 1).map_values(|k: int| k - shift);
    assert forall|k: int| 0 <= k < high.len() implies 0 <= #[trigger] high[k] < indices.len()
        - shift by {
        assert(high[k] == indices[i + 1 + k] - shift);
    }
    assert(rising(high)) by {
        assert forall|a: int, b: int| 0 <= a < b < high.len() implies #[trigger] high[a]
            < #[trigger] high[b] by {
            assert(high[a] == indices[i + 1 + a] - shift);
            assert(high[b] == indices[i + 1 + b] - shift);
        }
    }
    lemma_rising_bound(high, indices.len() - shift);
}

/// Whether `order` names fragments of a packet that `cuts` divides, none of them twice.
pub open spec fn arrivals(order: Seq<int>, cuts: Seq<int>) -> bool {
    &&& order.no_duplicates()
    &&& forall|i: int| 0 <= i < order.len() ==> 0 <= #[trigger] order[i] < cuts.len() - 1
}

/// Whether a packet under `key` can be put together: nothing waits under that key and there
/// is room for one more packet.
pub open spec fn has_room(packets: Map<Flow, Pending>, key: Flow) -> bool {
    !packets.contains_key(key) && packets.dom().finite() && packets.len() < MAX_PENDING
}

proof fn lemma_insert_rising(indices: Seq<int>, index: int, cuts: Seq<int>, payload: Seq<u8>) -> (at:
    int)
    requires
        divides(cuts, payload),
        rising(indices),
        !indices.contains(index),
        0 <= index < cuts.len() - 1,
        forall|i: int| 0 <= i < indices.len() ==> 0 <= #[trigger] indices[i] < cuts.len() - 1,
    ensures
        at == slot(chosen(indices, cuts, payload), cuts[index]),
        0 <= at <= indices.len(),
        rising(indices.insert(at, index)),
        chosen(indices.insert(at, index), cuts, payload) == chosen(indices, cuts, payload).insert(
            at,
            (cuts[index], cut_bytes(cuts, payload, index)),
        ),
        !overlaps(chosen(indices, cuts, payload), cuts[index], cuts[index + 1]),
{
    let fragments = chosen(indices, cuts, payload);
    assert(in_order(fragments)) by {
        assert forall|i: int, j: int| 0 <= i <= j < fragments.len() implies #[trigger] fragments[i].0
            <= #[trigger] fragments[j].0 by {
            assert(fragments[i].0 == cuts[indices[i]]);
            assert(fragments[j].0 == cuts[indices[j]]);
        }
    }
    lemma_slot(fragments, cuts[index]);
    let at = slot(fragments, cuts[index]);
    let next = indices.insert(at, index);
    assert(rising(next)) by {
        assert forall|i: int| 0 <= i < at implies #[trigger] indices[i] < index by {
            assert(fragments[i].0 == cuts[indices[i]]);
            assert(indices[i] != index);
            if indices[i] > index {
                assert(cuts[index] < cuts[indices[i]]);
            }
        }
        assert forall|i: int| at <= i < indices.len() implies index < #[trigger] indices[i] by {
            assert(fragments[i].0 == cuts[indices[i]]);
            if indices[i] < index {
                assert(cuts[indices[i]] < cuts[index]);
            }
        }
        assert forall|i: int, j: int| 0 <= i < j < next.len() implies #[trigger] next[i]
            < #[trigger] next[j] by {
            let a = if i < at { i } else { i - 1 };
            let b = if j < at { j } else { j - 1 };
            if i != at {
                assert(next[i] == indices[a]);
            }
            if j != at {
                assert(next[j] == indices[b]);
            }
        }
    }
    assert(chosen(next, cuts, payload) =~= fragments.insert(
        at,
        (cuts[index], cut_bytes(cuts, payload, index)),
    ));
    assert forall|i: int| 0 <= i < fragments.len() implies !(cuts[index]
        < #[trigger] fragments[i].0 + fragments[i].1.len() && fragments[i].0 < cuts[index + 1]) by {
        let other = indices[i];
        assert(fragments[i] == (cuts[other], cut_bytes(cuts, payload, other)));
        lemma_cut_length(cuts, payload, other);
        assert(other != index);
        if other < index {
            assert(other + 1 == index || cuts[other + 1] < cuts[index]);
        } else {
            assert(index + 1 == other || cuts[index + 1] < cuts[other]);
        }
    }
    at
}

proof fn lemma_cut_length(cuts: Seq<int>, payload: Seq<u8>, i: int)
    requires
        divides(cuts, payload),
        0 <= i < cuts.len() - 1,
    ensures
        0 <= cuts[i] < cuts[i + 1] <= payload.len(),
        cut_bytes(cuts, payload, i).len() == cuts[i + 1] - cuts[i],
{
    assert(i == 0 || cuts[0] < cuts[i]);
    assert(i + 1 == cuts.len() - 1 || cuts[i + 1] < cuts[cuts.len() - 1]);
}

proof fn lemma_contains_last(order: Seq<int>, value: int)
    requires
        order.len() > 0,
    ensures
        order.contains(value) <==> order.drop_last().contains(value) || order.last() == value,
{
    let front = order.drop_last();
    if order.contains(value) {
        let k = choose|k: int| 0 <= k < order.len() && order[k] == value;
        if k < front.len() {
            assert(front[k] == value);
        }
    }
    if front.contains(value) {
        let k = choose|k: int| 0 <= k < front.len() && front[k] == value;
        assert(order[k] == value);
    }
    if order.last() == value {
        assert(order[order.len() - 1] == value);
    }
}

proof fn lemma_same_members(order: Seq<int>, before: Seq<int>, at: int)
    requires
        order.len() > 0,
        0 <= at <= before.len(),
        forall|i: int| #[trigger] before.contains(i) <==> order.drop_last().contains(i),
    ensures
        forall|i: int| #[trigger]
            before.insert(at, order.last()).contains(i) <==> order.contains(i),
{
    let indices = before.insert(at, order.last());
    assert forall|i: int| #[trigger] indices.contains(i) <==> order.contains(i) by {
        lemma_contains_last(order, i);
        if indices.contains(i) {
            let k = choose|k: int| 0 <= k < indices.len() && indices[k] == i;
            if k != at {
                let b = if k < at { k } else { k - 1 };
                assert(before[b] == i);
                assert(before.contains(i));
            }
        }
        if order.last() == i {
            assert(indices[at] == i);
        } else if order.contains(i) {
            assert(before.contains(i));
            let b = choose|b: int| 0 <= b < before.len() && before[b] == i;
            if b < at {
                assert(indices[b] == i);
            } else {
                assert(indices[b + 1] == i);
            }
        }
    }
}

#[verifier::rlimit(40)]
proof fn lemma_delivery(
    packets: Map<Flow, Pending>,
    key: Flow,
    payload: Seq<u8>,
    cuts: Seq<int>,
    order: Seq<int>,
    times: Seq<int>,
) -> (indices: Seq<int>)
    requires
        has_room(packets, key),
        divides(cuts, payload),
        payload.len() <= MAX_PACKET,
        cuts.len() - 1 <= MAX_FRAGMENTS,
        arrivals(order, cuts),
    ensures
        rising(indices),
        indices.len() == order.len(),
        forall|i: int| #[trigger] indices.contains(i) <==> order.contains(i),
        ({
            let (after, answer) = delivery(packets, key, payload, cuts, order, times);
            if order.len() == 0 {
                after == packets && answer is None
            } else if order.len() < cuts.len() - 1 {
                let pending = Pending {
                    updated: times[order.len() - 1],
                    total: if order.contains(cuts.len() - 2) {
                        Some(payload.len() as int)
                    } else {
                        None
                    },
                    fragments: chosen(indices, cuts, payload),
                };
                after == packets.insert(key, pending) && answer is None
            } else {
                after == packets && answer == Some(payload)
            }
        }),
    decreases order.len(),
{
    if order.len() == 0 {
        let indices = Seq::<int>::empty();
        indices
    } else {
        let front = order.drop_last();
        let count = cuts.len() - 1;
        let index = order.last();
        assert(order[order.len() - 1] == index);
        assert forall|i: int| 0 <= i < front.len() implies 0 <= #[trigger] front[i] < cuts.len()
            - 1 by {
            assert(front[i] == order[i]);
        }
        assert(front.no_duplicates()) by {
            assert forall|i: int, j: int| 0 <= i < front.len() && 0 <= j < front.len() && i != j implies front[i]
                != front[j] by {
                assert(order[i] != order[j]);
            }
        }
        let before = lemma_delivery(packets, key, payload, cuts, front, times);
        assert(!front.contains(index)) by {
            if front.contains(index) {
                let k = choose|k: int| 0 <= k < front.len() && front[k] == index;
                assert(order[k] == index);
            }
        }
        assert(!before.contains(index));
        assert forall|i: int| 0 <= i < before.len() implies 0 <= #[trigger] before[i] < cuts.len()
            - 1 by {
            assert(before.contains(before[i]));
            let k = choose|k: int| 0 <= k < front.len() && front[k] == before[i];
            assert(front[k] == before[i]);
        }
        let at = lemma_insert_rising(before, index, cuts, payload);
        let indices = before.insert(at, index);
        assert forall|i: int| 0 <= i < indices.len() implies 0 <= #[trigger] indices[i]
            < cuts.len() - 1 by {
            if i < at {
                assert(indices[i] == before[i]);
            } else if i > at {
                assert(indices[i] == before[i - 1]);
            }
        }
        lemma_rising_bound(indices, count);
        lemma_same_members(order, before, at);
        lemma_cut_length(cuts, payload, index);
        lemma_chosen_end(indices, cuts, payload);
        let waiting = delivery(packets, key, payload, cuts, front, times).0;
        let more = index < count - 1;
        let data = cut_bytes(cuts, payload, index);
        let now = times[order.len() - 1];
        let pending = if waiting.contains_key(key) {
            waiting[key]
        } else {
            Pending { updated: now, total: None, fragments: Seq::empty() }
        };
        assert(chosen(Seq::empty(), cuts, payload) =~= Seq::empty());
        assert(front.len() == 0 ==> before =~= Seq::empty());
        assert(pending.fragments == chosen(before, cuts, payload));
        let next = extended(pending, cuts[index], more, data, now);
        assert(next.fragments == chosen(indices, cuts, payload));
        assert(cuts[index] + data.len() == cuts[index + 1]);
        assert(!overlaps(pending.fragments, cuts[index], cuts[index + 1]));
        lemma_contains_last(order, count - 1);
        assert(next.total == if order.contains(count - 1) {
            Some(payload.len() as int)
        } else {
            None
        });
        if order.len() < count {
            assert(cuts[indices.len() as int] < cuts[count]);
            assert(!complete(next));
            assert(waiting.insert(key, next) =~= packets.insert(key, next));
        } else {
            assert(order.contains(count - 1)) by {
                lemma_rising_exact(indices, count - 1);
                assert(indices.contains(count - 1));
            }
            assert(complete(next));
            assert(payload.take(payload.len() as int) =~= payload);
            assert(joined(next.fragments) == payload);
            assert(waiting.remove(key) =~= packets);
        }
        indices
    }
}

/// A packet is put together from its fragments whatever the order in which they arrive: no
/// arrival but the last answers, the last answers with the payload, and nothing is left behind.
pub proof fn delivered_in_any_order(
    packets: Map<Flow, Pending>,
    key: Flow,
    payload: Seq<u8>,
    cuts: Seq<int>,
    order: Seq<int>,
    times: Seq<int>,
)
    requires
        has_room(packets, key),
        divides(cuts, payload),
        payload.len() <= MAX_PACKET,
        cuts.len() - 1 <= MAX_FRAGMENTS,
        arrivals(order, cuts),
        order.len() == cuts.len() - 1,
    ensures
        delivery(packets, key, payload, cuts, order, times) == (packets, Some(payload)),
        forall|count: int|
            0 <= count < order.len() ==> (#[trigger] delivery(
                packets,
                key,
                payload,
                cuts,
                order.take(count),
                times,
            )).1 is None,
{
    lemma_delivery(packets, key, payload, cuts, order, times);
    assert forall|count: int| 0 <= count < order.len() implies (#[trigger] delivery(
        packets,
        key,
        payload,
        cuts,
        order.take(count),
        times,
    )).1 is None by {
        let part = order.take(count);
        assert(arrivals(part, cuts)) by {
            assert forall|i: int| 0 <= i < part.len() implies 0 <= #[trigger] part[i] < cuts.len()
                - 1 by {
                assert(part[i] == order[i]);
            }
            assert forall|i: int, j: int| 0 <= i < part.len() && 0 <= j < part.len() && i != j implies part[i]
                != part[j] by {
                assert(order[i] != order[j]);
            }
        }
        lemma_delivery(packets, key, payload, cuts, part, times);
    }
}

/// A fragment that runs into one that is there costs the packet: it is forgotten.
pub proof fn overlap_discards(
    packets: Map<Flow, Pending>,
    key: Flow,
    offset: int,
    more: bool,
    data: Seq<u8>,
    now: int,
)
    requires
        packets.contains_key(key),
        offset + data.len() <= MAX_PACKET,
        overlaps(packets[key].fragments, offset, offset + data.len()),
    ensures
        arrival(packets, key, offset, more, data, now) == (
            packets.remove(key),
            None::<Seq<u8>>,
        ),
{
}

/// A fragment that comes a second time is one that runs into another.
pub proof fn duplicate_discards(
    packets: Map<Flow, Pending>,
    key: Flow,
    i: int,
    more: bool,
    now: int,
)
    requires
        packets.contains_key(key),
        0 <= i < packets[key].fragments.len(),
        packets[key].fragments[i].1.len() > 0,
        packets[key].fragments[i].0 + packets[key].fragments[i].1.len() <= MAX_PACKET,
    ensures
        arrival(
            packets,
            key,
            packets[key].fragments[i].0,
            more,
            packets[key].fragments[i].1,
            now,
        ) == (packets.remove(key), None::<Seq<u8>>),
{
    let (offset, data) = packets[key].fragments[i];
    assert(overlaps(packets[key].fragments, offset, offset + data.len()));
}

/// A fragment of one packet leaves every other packet as it was.
pub proof fn others_unchanged(
    packets: Map<Flow, Pending>,
    key: Flow,
    offset: int,
    more: bool,
    data: Seq<u8>,
    now: int,
    other: Flow,
)
    requires
        other != key,
    ensures
        ({
            let after = arrival(packets, key, offset, more, data, now).0;
            &&& after.contains_key(other) == packets.contains_key(other)
            &&& packets.contains_key(other) ==> after[other] == packets[other]
        }),
{
}

/// What becomes of a packet depends on what waits under its own key: whatever else waits, the
/// answer and the entry are the same, if a packet that is new has room.
pub proof fn own_fragments_decide(
    packets: Map<Flow, Pending>,
    others: Map<Flow, Pending>,
    key: Flow,
    offset: int,
    more: bool,
    data: Seq<u8>,
    now: int,
)
    requires
        packets.contains_key(key) == others.contains_key(key),
        packets.contains_key(key) ==> packets[key] == others[key],
        !packets.contains_key(key) ==> packets.len() < MAX_PENDING && others.len() < MAX_PENDING,
    ensures
        ({
            let (after, answer) = arrival(packets, key, offset, more, data, now);
            let (others_after, others_answer) = arrival(others, key, offset, more, data, now);
            &&& answer == others_answer
            &&& after.contains_key(key) == others_after.contains_key(key)
            &&& after.contains_key(key) ==> after[key] == others_after[key]
        }),
{
}

/// What an arrival answers does not depend on when it comes.
pub proof fn answer_is_timeless(
    packets: Map<Flow, Pending>,
    key: Flow,
    offset: int,
    more: bool,
    data: Seq<u8>,
    first: int,
    second: int,
)
    ensures
        arrival(packets, key, offset, more, data, first).1 == arrival(
            packets,
            key,
            offset,
            more,
            data,
            second,
        ).1,
{
}

/// A fragment that arrives: what it belongs to, what it holds, and when it comes.
pub struct Arrival {
    pub key: Flow,
    pub offset: int,
    pub more: bool,
    pub data: Seq<u8>,
    pub now: int,
}

/// What happens to the packets that wait.
pub enum Step {
    /// A fragment arrives.
    Arrives(Arrival),
    /// Packets that have waited too long at this time are dropped.
    Expires(int),
    /// Something else happens that they have no part in.
    Passes,
}

/// What a step makes of the packets that wait, and the packet that it completes.
pub open spec fn stepped(packets: Map<Flow, Pending>, step: Step) -> (
    Map<Flow, Pending>,
    Option<Seq<u8>>,
) {
    match step {
        Step::Arrives(fragment) => arrival(
            packets,
            fragment.key,
            fragment.offset,
            fragment.more,
            fragment.data,
            fragment.now,
        ),
        Step::Expires(now) => (unexpired(packets, now), None),
        Step::Passes => (packets, None),
    }
}

/// What steps one after the other make of the packets that wait, and the packet that the last one
/// completes.
pub open spec fn run(packets: Map<Flow, Pending>, steps: Seq<Step>) -> (
    Map<Flow, Pending>,
    Option<Seq<u8>>,
)
    decreases steps.len(),
{
    if steps.len() == 0 {
        (packets, None)
    } else {
        stepped(run(packets, steps.drop_last()).0, steps.last())
    }
}

/// Whether a step is the arrival of a fragment of the packet under `key`.
pub open spec fn is_of(key: Flow) -> spec_fn(Step) -> bool {
    |step: Step| step matches Step::Arrives(fragment) && fragment.key == key
}

/// Whether the other steps leave the packet under `key` in peace: whenever a fragment of it comes
/// and none waits there is room for one more packet, and whenever old packets are dropped its
/// last fragment is not that old.
pub open spec fn undisturbed(packets: Map<Flow, Pending>, key: Flow, steps: Seq<Step>) -> bool {
    forall|n: int|
        0 <= n < steps.len() ==> at_peace(
            #[trigger] run(packets, steps.take(n)).0,
            key,
            steps[n],
        )
}

/// Whether a step leaves the packet under `key` in peace.
pub open spec fn at_peace(packets: Map<Flow, Pending>, key: Flow, step: Step) -> bool {
    match step {
        Step::Arrives(fragment) => fragment.key == key && !packets.contains_key(key)
            ==> packets.len() < MAX_PENDING,
        Step::Expires(now) => packets.contains_key(key) ==> now - packets[key].updated
            < FRAGMENT_AGE,
        Step::Passes => true,
    }
}

/// What waits under `key`, and nothing else.
pub open spec fn alone(packets: Map<Flow, Pending>, key: Flow) -> Map<Flow, Pending> {
    if packets.contains_key(key) {
        Map::empty().insert(key, packets[key])
    } else {
        Map::empty()
    }
}

proof fn lemma_step_alone(packets: Map<Flow, Pending>, key: Flow, step: Step)
    requires
        at_peace(packets, key, step),
    ensures
        is_of(key)(step) ==> {
            &&& alone(stepped(packets, step).0, key) == stepped(alone(packets, key), step).0
            &&& stepped(packets, step).1 == stepped(alone(packets, key), step).1
        },
        !is_of(key)(step) ==> alone(stepped(packets, step).0, key) == alone(packets, key),
{
    match step {
        Step::Arrives(fragment) => {
            if fragment.key == key {
                own_fragments_decide(
                    packets,
                    alone(packets, key),
                    key,
                    fragment.offset,
                    fragment.more,
                    fragment.data,
                    fragment.now,
                );
                let after = stepped(alone(packets, key), step).0;
                assert forall|other: Flow| other != key implies !after.contains_key(other) by {
                    others_unchanged(
                        alone(packets, key),
                        key,
                        fragment.offset,
                        fragment.more,
                        fragment.data,
                        fragment.now,
                        other,
                    );
                }
                assert(alone(stepped(packets, step).0, key) =~= after);
            } else {
                others_unchanged(
                    packets,
                    fragment.key,
                    fragment.offset,
                    fragment.more,
                    fragment.data,
                    fragment.now,
                    key,
                );
            }
        },
        _ => {},
    }
}

proof fn lemma_undisturbed_part(
    packets: Map<Flow, Pending>,
    key: Flow,
    steps: Seq<Step>,
    count: int,
)
    requires
        undisturbed(packets, key, steps),
        0 <= count <= steps.len(),
    ensures
        undisturbed(packets, key, steps.take(count)),
{
    let part = steps.take(count);
    assert forall|n: int| 0 <= n < part.len() implies at_peace(
        #[trigger] run(packets, part.take(n)).0,
        key,
        part[n],
    ) by {
        assert(part.take(n) =~= steps.take(n));
        assert(at_peace(run(packets, steps.take(n)).0, key, steps[n]));
    }
}

/// Fragments of other packets and the dropping of old ones change nothing for a packet that they
/// leave in peace: with them or without, the same waits under its key and its fragments get the
/// same answers.
pub proof fn others_do_not_matter(packets: Map<Flow, Pending>, key: Flow, steps: Seq<Step>)
    requires
        undisturbed(packets, key, steps),
    ensures
        ({
            let own = steps.filter(is_of(key));
            &&& alone(run(packets, steps).0, key) == run(alone(packets, key), own).0
            &&& steps.len() > 0 && is_of(key)(steps.last()) ==> run(packets, steps).1 == run(
                alone(packets, key),
                own,
            ).1
        }),
    decreases steps.len(),
{
    reveal(Seq::filter);
    if steps.len() > 0 {
        let front = steps.drop_last();
        let last = steps.len() - 1;
        assert(steps.take(last) =~= front);
        lemma_undisturbed_part(packets, key, steps, last);
        others_do_not_matter(packets, key, front);
        assert(at_peace(run(packets, steps.take(last)).0, key, steps[last]));
        lemma_step_alone(run(packets, front).0, key, steps.last());
        if is_of(key)(steps.last()) {
            let own = front.filter(is_of(key));
            assert(steps.filter(is_of(key)) == own.push(steps.last()));
            assert(own.push(steps.last()).drop_last() =~= own);
        }
    }
}

/// Whether a step is the arrival of the fragment between one cut and the next.
pub open spec fn is_piece(
    step: Step,
    key: Flow,
    payload: Seq<u8>,
    cuts: Seq<int>,
    i: int,
) -> bool {
    step matches Step::Arrives(fragment) && {
        &&& fragment.key == key
        &&& fragment.offset == cuts[i]
        &&& fragment.more == (i < cuts.len() - 2)
        &&& fragment.data == cut_bytes(cuts, payload, i)
    }
}

/// Whether `own` are the fragments of a packet in the order in which `order` counts them.
pub open spec fn pieces_arrive(
    key: Flow,
    payload: Seq<u8>,
    cuts: Seq<int>,
    order: Seq<int>,
    own: Seq<Step>,
) -> bool {
    own.len() == order.len() && forall|k: int|
        0 <= k < own.len() ==> is_piece(#[trigger] own[k], key, payload, cuts, order[k])
}

/// The times at which fragments come.
spec fn times_of(own: Seq<Step>) -> Seq<int> {
    own.map_values(|step: Step| step->Arrives_0.now)
}

proof fn lemma_run_delivers(
    packets: Map<Flow, Pending>,
    key: Flow,
    payload: Seq<u8>,
    cuts: Seq<int>,
    order: Seq<int>,
    own: Seq<Step>,
    count: int,
)
    requires
        pieces_arrive(key, payload, cuts, order, own),
        0 <= count <= own.len(),
    ensures
        run(packets, own.take(count)) == delivery(
            packets,
            key,
            payload,
            cuts,
            order.take(count),
            times_of(own),
        ),
    decreases count,
{
    if count > 0 {
        lemma_run_delivers(packets, key, payload, cuts, order, own, count - 1);
        assert(own.take(count).drop_last() =~= own.take(count - 1));
        assert(order.take(count).drop_last() =~= order.take(count - 1));
        assert(own.take(count).last() == own[count - 1]);
        assert(own[count - 1] is Arrives);
        assert(times_of(own)[count - 1] == own[count - 1]->Arrives_0.now);
    }
}

/// A packet is put together from its fragments in whatever order they arrive and whatever else
/// arrives between them, if it is left in peace: none of its fragments but the last gets an
/// answer, the last gets the payload, and nothing is left behind.
pub proof fn delivered_among_others(
    packets: Map<Flow, Pending>,
    key: Flow,
    payload: Seq<u8>,
    cuts: Seq<int>,
    order: Seq<int>,
    steps: Seq<Step>,
)
    requires
        !packets.contains_key(key),
        undisturbed(packets, key, steps),
        divides(cuts, payload),
        payload.len() <= MAX_PACKET,
        cuts.len() - 1 <= MAX_FRAGMENTS,
        arrivals(order, cuts),
        order.len() == cuts.len() - 1,
        pieces_arrive(key, payload, cuts, order, steps.filter(is_of(key))),
        steps.len() > 0,
        is_of(key)(steps.last()),
    ensures
        run(packets, steps).1 == Some(payload),
        !run(packets, steps).0.contains_key(key),
        forall|n: int|
            0 <= n < steps.len() - 1 && is_of(key)(steps[n]) ==> (#[trigger] run(
                packets,
                steps.take(n + 1),
            )).1 is None,
{
    let own = steps.filter(is_of(key));
    let empty = Map::<Flow, Pending>::empty();
    let times = times_of(own);
    others_do_not_matter(packets, key, steps);
    lemma_run_delivers(empty, key, payload, cuts, order, own, own.len() as int);
    assert(own.take(own.len() as int) =~= own);
    assert(order.take(own.len() as int) =~= order);
    delivered_in_any_order(empty, key, payload, cuts, order, times);
    assert forall|n: int| 0 <= n < steps.len() - 1 && is_of(key)(steps[n]) implies (#[trigger] run(
        packets,
        steps.take(n + 1),
    )).1 is None by {
        let part = steps.take(n + 1);
        let rest = steps.skip(n + 1);
        let count = part.filter(is_of(key)).len() as int;
        lemma_undisturbed_part(packets, key, steps, n + 1);
        others_do_not_matter(packets, key, part);
        Seq::filter_distributes_over_add(part, rest, is_of(key));
        assert(part + rest =~= steps);
        assert(rest.filter(is_of(key)).len() > 0) by {
            reveal(Seq::filter);
            assert(rest.last() == steps.last());
        }
        assert(own.take(count) =~= part.filter(is_of(key)));
        lemma_run_delivers(empty, key, payload, cuts, order, own, count);
        let earlier = delivery(empty, key, payload, cuts, order.take(count), times);
        assert(earlier.1 is None);
    }
}

/// Fragments in order without a gap stand in what they make up where their offsets say, and no
/// byte of it comes from anywhere else.
proof fn lemma_joined_places(fragments: Seq<Piece>)
    requires
        contiguous_end(fragments) is Some,
    ensures
        joined(fragments).len() == contiguous_end(fragments)->0,
        forall|i: int|
            0 <= i < fragments.len() ==> stands_in(#[trigger] fragments[i], joined(fragments)),
        forall|x: int|
            0 <= x < joined(fragments).len() ==> #[trigger] covered(fragments, x),
    decreases fragments.len(),
{
    if fragments.len() > 0 {
        let front = fragments.drop_last();
        let last = fragments.last();
        lemma_joined_places(front);
        let whole = joined(fragments);
        assert forall|i: int| 0 <= i < fragments.len() implies stands_in(
            #[trigger] fragments[i],
            whole,
        ) by {
            if i < front.len() {
                assert(front[i] == fragments[i]);
                assert(stands_in(front[i], joined(front)));
                assert(whole.subrange(front[i].0, front[i].0 + front[i].1.len()) =~= joined(
                    front,
                ).subrange(front[i].0, front[i].0 + front[i].1.len()));
            } else {
                assert(whole.subrange(last.0, last.0 + last.1.len()) =~= last.1);
            }
        }
        assert forall|x: int| 0 <= x < whole.len() implies #[trigger] covered(fragments, x) by {
            if x < last.0 {
                assert(covered(front, x));
                let i = choose|i: int|
                    0 <= i < front.len() && #[trigger] front[i].0 <= x < front[i].0
                        + front[i].1.len();
                assert(fragments[i] == front[i]);
            } else {
                assert(fragments[fragments.len() - 1].0 <= x);
            }
        }
    }
}

/// Whether a fragment stands in a payload where its offset says.
pub open spec fn stands_in(fragment: Piece, payload: Seq<u8>) -> bool {
    &&& 0 <= fragment.0
    &&& fragment.0 + fragment.1.len() <= payload.len()
    &&& payload.subrange(fragment.0, fragment.0 + fragment.1.len()) == fragment.1
}

/// Whether a byte of a payload comes from one of the fragments.
pub open spec fn covered(fragments: Seq<Piece>, x: int) -> bool {
    exists|i: int|
        0 <= i < fragments.len() && #[trigger] fragments[i].0 <= x < fragments[i].0
            + fragments[i].1.len()
}

/// The fragments that wait under a key.
pub open spec fn waiting(packets: Map<Flow, Pending>, key: Flow) -> Seq<Piece> {
    if packets.contains_key(key) {
        packets[key].fragments
    } else {
        Seq::empty()
    }
}

/// Whether a fragment is one to take: it is cut at a multiple of eight bytes or is the last, it
/// ends within 65535 bytes, fewer than 1024 packets wait or its own is among them, fewer than 128
/// fragments of its packet wait, and it runs into none of them.
pub open spec fn acceptable(
    packets: Map<Flow, Pending>,
    key: Flow,
    offset: int,
    more: bool,
    data: Seq<u8>,
) -> bool {
    &&& more ==> data.len() % 8 == 0
    &&& offset + data.len() <= 65_535
    &&& packets.contains_key(key) || packets.len() < 1024
    &&& waiting(packets, key).len() < 128
    &&& forall|i: int|
        0 <= i < waiting(packets, key).len() ==> {
            let other = #[trigger] waiting(packets, key)[i];
            offset + data.len() <= other.0 || other.0 + other.1.len() <= offset
        }
}

/// A fragment that is not one to take gets no answer and costs its packet all that waits of it,
/// unless there was no room for the packet or its place is beyond what can be counted: then
/// nothing changes.
pub proof fn refused_fragments(
    packets: Map<Flow, Pending>,
    key: Flow,
    offset: int,
    more: bool,
    data: Seq<u8>,
    now: int,
)
    requires
        !acceptable(packets, key, offset, more, data),
    ensures
        ({
            let (after, answer) = arrival(packets, key, offset, more, data, now);
            let misfit = more && data.len() % 8 != 0;
            let full = !packets.contains_key(key) && packets.len() >= 1024;
            &&& answer is None
            &&& misfit ==> after == packets.remove(key)
            &&& !misfit && offset + data.len() > usize::MAX ==> after == packets
            &&& !misfit && 65_535 < offset + data.len() <= usize::MAX ==> after == packets.remove(
                key,
            )
            &&& !misfit && offset + data.len() <= 65_535 && full ==> after == packets
            &&& !misfit && offset + data.len() <= 65_535 && !full ==> after == packets.remove(key)
        }),
{
    let fragments = waiting(packets, key);
    let end = offset + data.len();
    if !overlaps(fragments, offset, end) {
        assert forall|i: int| 0 <= i < fragments.len() implies {
            let other = #[trigger] fragments[i];
            end <= other.0 || other.0 + other.1.len() <= offset
        } by {
            assert(!(offset < fragments[i].0 + fragments[i].1.len() && fragments[i].0 < end));
        }
    }
}

/// A fragment that is one to take either completes its packet, which then holds every fragment
/// where its offset says and not a byte beside, and ends where the last fragment ends; or it
/// waits with the others from then on.
pub proof fn accepted_fragments(
    packets: Map<Flow, Pending>,
    key: Flow,
    offset: int,
    more: bool,
    data: Seq<u8>,
    now: int,
)
    requires
        acceptable(packets, key, offset, more, data),
        in_order(waiting(packets, key)),
    ensures
        ({
            let (after, answer) = arrival(packets, key, offset, more, data, now);
            let before = waiting(packets, key);
            let known = if packets.contains_key(key) {
                packets[key].total
            } else {
                None
            };
            let total = if more {
                known
            } else {
                Some((offset + data.len()) as int)
            };
            match answer {
                Some(payload) => {
                    &&& total == Some(payload.len() as int)
                    &&& stands_in((offset, data), payload)
                    &&& forall|i: int|
                        0 <= i < before.len() ==> stands_in(#[trigger] before[i], payload)
                    &&& forall|x: int|
                        0 <= x < payload.len() ==> offset <= x < offset + data.len()
                            || #[trigger] covered(before, x)
                    &&& !after.contains_key(key)
                },
                None => {
                    &&& after.contains_key(key)
                    &&& after[key].updated == now
                    &&& after[key].total == total
                    &&& after[key].fragments.len() == before.len() + 1
                    &&& after[key].fragments.contains((offset, data))
                    &&& forall|i: int|
                        0 <= i < before.len() ==> after[key].fragments.contains(
                            #[trigger] before[i],
                        )
                    &&& in_order(after[key].fragments)
                },
            }
        }),
{
    let before = waiting(packets, key);
    let pending = if packets.contains_key(key) {
        packets[key]
    } else {
        Pending { updated: now, total: None, fragments: Seq::empty() }
    };
    assert(pending.fragments =~= before);
    assert(!overlaps(before, offset, offset + data.len()));
    let next = extended(pending, offset, more, data, now);
    let at = slot(before, offset);
    let all = next.fragments;
    lemma_slot(before, offset);
    assert(all[at] == (offset, data));
    assert forall|i: int| 0 <= i < before.len() implies all.contains(#[trigger] before[i]) by {
        if i < at {
            assert(all[i] == before[i]);
        } else {
            assert(all[i + 1] == before[i]);
        }
    }
    assert forall|i: int, j: int| 0 <= i <= j < all.len() implies #[trigger] all[i].0
        <= #[trigger] all[j].0 by {
        let a = if i < at { i } else { i - 1 };
        let b = if j < at { j } else { j - 1 };
        if i != at {
            assert(all[i] == before[a]);
        }
        if j != at {
            assert(all[j] == before[b]);
        }
    }
    if complete(next) {
        let payload = joined(all);
        lemma_joined_places(all);
        assert(stands_in(all[at], payload));
        assert forall|i: int| 0 <= i < before.len() implies stands_in(
            #[trigger] before[i],
            payload,
        ) by {
            let k = choose|k: int| 0 <= k < all.len() && all[k] == before[i];
            assert(stands_in(all[k], payload));
        }
        assert forall|x: int| 0 <= x < payload.len() implies offset <= x < offset + data.len()
            || #[trigger] covered(before, x) by {
            assert(covered(all, x));
            let k = choose|k: int|
                0 <= k < all.len() && #[trigger] all[k].0 <= x < all[k].0 + all[k].1.len();
            if k != at {
                let b = if k < at { k } else { k - 1 };
                assert(all[k] == before[b]);
            }
        }
    }
}

/// A packet waits on exactly if its last fragment came less than a minute ago.
pub proof fn waiting_lasts_a_minute(packets: Map<Flow, Pending>, key: Flow, now: int)
    ensures
        unexpired(packets, now).contains_key(key) <==> packets.contains_key(key) && now
            - packets[key].updated < 60_000_000_000,
        unexpired(packets, now).contains_key(key) ==> unexpired(packets, now)[key] == packets[key],
{
}

/// Two fragments belong together exactly if their addresses and their identification are the same.
pub proof fn flows_are_named(left: FragmentKey, right: FragmentKey)
    ensures
        flow(left) == flow(right) <==> left.0@ == right.0@ && left.1@ == right.1@ && left.2
            == right.2,
        flow(left).0 == left.0@ && flow(left).1 == left.1@ && flow(left).2 == left.2,
{
}

/// Whether fragments hold something each, and no byte is in two of them.
pub open spec fn apart(fragments: Seq<Piece>) -> bool {
    &&& forall|i: int| 0 <= i < fragments.len() ==> (#[trigger] fragments[i]).1.len() > 0
    &&& forall|i: int, j: int|
        0 <= i < j < fragments.len() ==> (#[trigger] fragments[i]).0 + fragments[i].1.len() <= (
        #[trigger] fragments[j]).0 || fragments[j].0 + fragments[j].1.len() <= fragments[i].0
}

proof fn lemma_contiguous(fragments: Seq<Piece>, end: int)
    requires
        in_order(fragments),
        apart(fragments),
        end >= 0,
        forall|i: int|
            0 <= i < fragments.len() ==> 0 <= (#[trigger] fragments[i]).0 && fragments[i].0
                + fragments[i].1.len() <= end,
        forall|x: int| 0 <= x < end ==> #[trigger] covered(fragments, x),
    ensures
        contiguous_end(fragments) == Some(end),
    decreases fragments.len(),
{
    if fragments.len() == 0 {
        if end > 0 {
            assert(covered(fragments, 0));
        }
    } else {
        let front = fragments.drop_last();
        let last = fragments.last();
        let count = front.len() as int;
        assert(fragments[count] == last);
        assert(covered(fragments, end - 1));
        let top = choose|i: int|
            0 <= i < fragments.len() && #[trigger] fragments[i].0 <= end - 1 < fragments[i].0
                + fragments[i].1.len();
        assert(fragments[top].0 <= fragments[count].0);
        assert(top == count);
        assert forall|i: int| 0 <= i < front.len() implies 0 <= (#[trigger] front[i]).0
            && front[i].0 + front[i].1.len() <= last.0 by {
            assert(front[i] == fragments[i]);
            assert(fragments[i].0 <= fragments[count].0);
        }
        assert forall|x: int| 0 <= x < last.0 implies #[trigger] covered(front, x) by {
            assert(covered(fragments, x));
            let i = choose|i: int|
                0 <= i < fragments.len() && #[trigger] fragments[i].0 <= x < fragments[i].0
                    + fragments[i].1.len();
            assert(front[i] == fragments[i]);
        }
        assert(apart(front)) by {
            assert forall|i: int| 0 <= i < front.len() implies (#[trigger] front[i]).1.len() > 0 by {
                assert(front[i] == fragments[i]);
            }
            assert forall|i: int, j: int| 0 <= i < j < front.len() implies (
            #[trigger] front[i]).0 + front[i].1.len() <= (#[trigger] front[j]).0 || front[j].0
                + front[j].1.len() <= front[i].0 by {
                assert(front[i] == fragments[i] && front[j] == fragments[j]);
            }
        }
        assert(in_order(front)) by {
            assert forall|i: int, j: int| 0 <= i <= j < front.len() implies #[trigger] front[i].0
                <= #[trigger] front[j].0 by {
                assert(front[i] == fragments[i] && front[j] == fragments[j]);
            }
        }
        lemma_contiguous(front, last.0);
    }
}

/// A packet is put together as soon as its last fragment is known and no byte before its end is
/// missing.
pub proof fn completed_packets(
    packets: Map<Flow, Pending>,
    key: Flow,
    offset: int,
    more: bool,
    data: Seq<u8>,
    now: int,
    end: int,
)
    requires
        acceptable(packets, key, offset, more, data),
        in_order(waiting(packets, key)),
        apart(waiting(packets, key)),
        data.len() > 0,
        offset >= 0,
        if more {
            packets.contains_key(key) && packets[key].total == Some(end)
        } else {
            end == offset + data.len()
        },
        offset + data.len() <= end,
        forall|i: int|
            0 <= i < waiting(packets, key).len() ==> 0 <= (#[trigger] waiting(packets, key)[i]).0
                && waiting(packets, key)[i].0 + waiting(packets, key)[i].1.len() <= end,
        forall|x: int|
            0 <= x < end ==> offset <= x < offset + data.len() || #[trigger] covered(
                waiting(packets, key),
                x,
            ),
    ensures
        arrival(packets, key, offset, more, data, now).1 is Some,
{
    let before = waiting(packets, key);
    let pending = if packets.contains_key(key) {
        packets[key]
    } else {
        Pending { updated: now, total: None, fragments: Seq::empty() }
    };
    assert(pending.fragments =~= before);
    assert(!overlaps(before, offset, offset + data.len()));
    let next = extended(pending, offset, more, data, now);
    let at = slot(before, offset);
    let all = next.fragments;
    lemma_slot(before, offset);
    let old_place = |i: int| if i < at { i } else { i - 1 };
    assert forall|i: int| 0 <= i < all.len() && i != at implies #[trigger] all[i]
        == before[old_place(i)] by {}
    assert(all[at] == (offset, data));
    assert(in_order(all)) by {
        assert forall|i: int, j: int| 0 <= i <= j < all.len() implies #[trigger] all[i].0
            <= #[trigger] all[j].0 by {
            if i != at {
                assert(all[i] == before[old_place(i)]);
            }
            if j != at {
                assert(all[j] == before[old_place(j)]);
            }
        }
    }
    assert(apart(all)) by {
        assert forall|i: int| 0 <= i < all.len() implies (#[trigger] all[i]).1.len() > 0 by {
            if i != at {
                assert(all[i] == before[old_place(i)]);
            }
        }
        assert forall|i: int, j: int| 0 <= i < j < all.len() implies (#[trigger] all[i]).0
            + all[i].1.len() <= (#[trigger] all[j]).0 || all[j].0 + all[j].1.len() <= all[i].0 by {
            if i != at {
                assert(all[i] == before[old_place(i)]);
            }
            if j != at {
                assert(all[j] == before[old_place(j)]);
            }
        }
    }
    assert forall|x: int| 0 <= x < end implies #[trigger] covered(all, x) by {
        if offset <= x < offset + data.len() {
            assert(all[at].0 <= x);
        } else {
            assert(covered(before, x));
            let k = choose|k: int|
                0 <= k < before.len() && #[trigger] before[k].0 <= x < before[k].0
                    + before[k].1.len();
            let i = if k < at { k } else { k + 1 };
            assert(all[i] == before[k]);
        }
    }
    assert forall|i: int| 0 <= i < all.len() implies 0 <= (#[trigger] all[i]).0 && all[i].0
        + all[i].1.len() <= end by {
        if i != at {
            assert(all[i] == before[old_place(i)]);
        }
    }
    lemma_contiguous(all, end);
}

} // verus!
