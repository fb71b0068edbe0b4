//! Per-tunnel MAC learning that suppresses frames reflected back from the remote.

use crate::clock;
use crate::clock::Clock;
use std::collections::HashMap;
use vstd::prelude::*;

verus! {

/// How long a learned address counts, in nanoseconds.
pub const MAC_AGE: u128 = 300_000_000_000;

/// The addresses learned from a tunnel with the time at which each was last seen, and when to
/// look for old ones next.
pub struct MacModel {
    pub remote: Map<Seq<u8>, int>,
    pub next_expiry: int,
}

/// The source address of a frame.
pub open spec fn source_spec(frame: Seq<u8>) -> Option<Seq<u8>> {
    if frame.len() >= 12 {
        Some(frame.subrange(6, 12))
    } else {
        None
    }
}

/// Whether a source address is one to learn: there is one, and it is not a group address.
pub open spec fn learnable(frame: Seq<u8>) -> bool {
    source_spec(frame) matches Some(source) && source[0] % 2 == 0
}

/// What a frame from the tunnel at time `now` makes of a table.
pub open spec fn learned(table: MacModel, frame: Seq<u8>, now: int) -> MacModel {
    if learnable(frame) {
        MacModel {
            remote: table.remote.insert(source_spec(frame)->0, now),
            next_expiry: table.next_expiry,
        }
    } else {
        table
    }
}

/// Whether the source of a frame was seen in the tunnel less than [`MAC_AGE`] before `now`.
pub open spec fn reflected(table: MacModel, frame: Seq<u8>, now: int) -> bool {
    source_spec(frame) matches Some(source) && table.remote.contains_key(source) && now
        - table.remote[source] < MAC_AGE
}

/// A table after old addresses have been dropped, if it is time to look for them.
pub open spec fn aged(table: MacModel, now: int) -> MacModel {
    if now >= table.next_expiry {
        MacModel {
            remote: table.remote.restrict(
                Set::new(
                    |mac: Seq<u8>|
                        table.remote.contains_key(mac) && now - table.remote[mac] < MAC_AGE,
                ),
            ),
            next_expiry: now + MAC_AGE,
        }
    } else {
        table
    }
}

/// An address as a number.
spec fn mac_number(mac: Seq<u8>) -> int {
    ((((mac[0] * 256 + mac[1]) * 256 + mac[2]) * 256 + mac[3]) * 256 + mac[4]) * 256 + mac[5]
}

proof fn lemma_low_byte(left: int, left_byte: u8, right: int, right_byte: u8)
    requires
        left * 256 + left_byte == right * 256 + right_byte,
    ensures
        left == right,
        left_byte == right_byte,
{
}

proof fn lemma_mac_number(left: Seq<u8>, right: Seq<u8>)
    requires
        left.len() == 6,
        right.len() == 6,
        mac_number(left) == mac_number(right),
    ensures
        left == right,
{
    let left2 = left[0] * 256 + left[1];
    let right2 = right[0] * 256 + right[1];
    let left3 = left2 * 256 + left[2];
    let right3 = right2 * 256 + right[2];
    let left4 = left3 * 256 + left[3];
    let right4 = right3 * 256 + right[3];
    lemma_low_byte(left4 * 256 + left[4], left[5], right4 * 256 + right[4], right[5]);
    lemma_low_byte(left4, left[4], right4, right[4]);
    lemma_low_byte(left3, left[3], right3, right[3]);
    lemma_low_byte(left2, left[2], right2, right[2]);
    lemma_low_byte(left[0] as int, left[1], right[0] as int, right[1]);
    assert(left =~= right);
}

proof fn lemma_mac_range(mac: Seq<u8>)
    ensures
        0 <= mac_number(mac) <= u64::MAX,
{
}

spec fn remote_of(numbers: Map<u64, u128>) -> Map<Seq<u8>, int> {
    Map::new(
        |mac: Seq<u8>| mac.len() == 6 && numbers.contains_key(mac_number(mac) as u64),
        |mac: Seq<u8>| numbers[mac_number(mac) as u64] as int,
    )
}

/// Remembers source MACs learned from the tunnel for a short window so the same
/// frame arriving from the LAN is not sent back into the tunnel.
pub struct MacTable {
    clock: Clock,
    remote: HashMap<u64, u128>,
    next_expiry: u128,
}

impl View for MacTable {
    type V = MacModel;

    closed spec fn view(&self) -> MacModel {
        MacModel { remote: remote_of(self.remote@), next_expiry: self.next_expiry as int }
    }
}

/// The source address of a frame as a number.
fn source_mac(frame: &[u8]) -> (source: Option<u64>)
    ensures
        match source {
            Some(source) => source_spec(frame@) is Some && source == mac_number(
                source_spec(frame@)->0,
            ),
            None => source_spec(frame@) is None,
        },
{
    if frame.len() < 12 {
        return None;
    }
    Some(
        ((((frame[6] as u64 * 256 + frame[7] as u64) * 256 + frame[8] as u64) * 256
            + frame[9] as u64) * 256 + frame[10] as u64) * 256 + frame[11] as u64,
    )
}

impl MacTable {
    /// The clock that the table goes by.
    pub closed spec fn clock(&self) -> Clock {
        self.clock
    }

    /// An empty table that takes its time from `clock`.
    pub fn with_clock(clock: Clock) -> (table: MacTable)
        ensures
            table@.remote == Map::<Seq<u8>, int>::empty(),
            MAC_AGE <= table@.next_expiry <= clock::last_tick() + MAC_AGE,
            table.clock() == clock,
    {
        let next_expiry = clock.nanos() + MAC_AGE;
        let table = MacTable { clock, remote: HashMap::new(), next_expiry };
        assert(table@.remote =~= Map::<Seq<u8>, int>::empty());
        table
    }

    /// Remembers the source of a frame from the tunnel.
    pub fn learn_source(&mut self, frame: &[u8])
        ensures
            final(self).clock() == old(self).clock(),
            exists|now: u128|
                now <= clock::last_tick() && final(self)@ == #[trigger] learned(
                    old(self)@,
                    frame@,
                    now as int,
                ),
    {
        let now = self.clock.nanos();
        self.learn_source_at(frame, now);
    }

    /// Remembers the source of a frame that came from the tunnel at time `now`.
    pub fn learn_source_at(&mut self, frame: &[u8], now: u128)
        ensures
            final(self).clock() == old(self).clock(),
            final(self)@ == learned(old(self)@, frame@, now as int),
            final(self)@.next_expiry == old(self)@.next_expiry,
            frame@.len() >= 12 && frame@[6] % 2 == 0 ==> final(self)@.remote == old(
                self,
            )@.remote.insert(frame@.subrange(6, 12), now as int),
            frame@.len() < 12 || frame@[6] % 2 == 1 ==> final(self)@.remote == old(self)@.remote,
    {
        proof {
            learning_bytes(self@, frame@, now as int);
        }
        match source_mac(frame) {
            Some(source) => {
                if frame[6] % 2 == 0 {
                    self.remote.insert(source, now);
                    proof {
                        let mac = source_spec(frame@)->0;
                        assert(self@.remote =~= old(self)@.remote.insert(mac, now as int)) by {
                            assert forall|other: Seq<u8>|
                                other.len() == 6 && mac_number(other) as u64 == source implies other
                                == mac by {
                                lemma_mac_range(other);
                                lemma_mac_number(other, mac);
                            }
                        }
                    }
                }
            },
            None => {},
        }
    }

    /// Whether the source of a frame from the LAN was lately seen in the tunnel.
    pub fn contains_source(&self, frame: &[u8]) -> (found: bool)
        ensures
            exists|now: u128|
                now <= clock::last_tick() && found == #[trigger] reflected(
                    self@,
                    frame@,
                    now as int,
                ),
    {
        let now = self.clock.nanos();
        self.contains_source_at(frame, now)
    }

    /// Whether the source of a frame was seen in the tunnel lately at time `now`.
    pub fn contains_source_at(&self, frame: &[u8], now: u128) -> (found: bool)
        ensures
            found == reflected(self@, frame@, now as int),
            found == {
                &&& frame@.len() >= 12
                &&& self@.remote.contains_key(frame@.subrange(6, 12))
                &&& now - self@.remote[frame@.subrange(6, 12)] < 300_000_000_000
            },
    {
        match source_mac(frame) {
            Some(source) => match self.remote.get(&source) {
                Some(seen) => now.saturating_sub(*seen) < MAC_AGE,
                None => false,
            },
            None => false,
        }
    }

    /// Drops old addresses from time to time.
    pub fn expire(&mut self)
        ensures
            final(self).clock() == old(self).clock(),
            exists|now: u128|
                now <= clock::last_tick() && final(self)@ == #[trigger] aged(
                    old(self)@,
                    now as int,
                ),
    {
        let now = self.clock.nanos();
        self.expire_at(now);
    }

    /// Drops old addresses at time `now` if it is time to look for them.
    pub fn expire_at(&mut self, now: u128)
        requires
            now <= clock::last_tick(),
        ensures
            final(self).clock() == old(self).clock(),
            final(self)@ == aged(old(self)@, now as int),
    {
        if now < self.next_expiry {
            return;
        }
        let mut kept: HashMap<u64, u128> = HashMap::new();
        for pair in it: self.remote.iter()
            invariant
                forall|key: u64| #[trigger]
                    kept@.contains_key(key) ==> self.remote@.contains_key(key) && kept@[key]
                        == self.remote@[key] && now - kept@[key] < MAC_AGE,
                forall|i: int|
                    0 <= i < it.index() && now - *(#[trigger] it.seq()[i]).1 < MAC_AGE
                        ==> kept@.contains_key(*it.seq()[i].0),
                forall|key: u64| #[trigger]
                    self.remote@.contains_key(key) ==> it.seq().contains(
                        (&key, &self.remote@[key]),
                    ),
        {
            let (key, seen) = pair;
            if now.saturating_sub(*seen) < MAC_AGE {
                kept.insert(*key, *seen);
            }
        }
        assert forall|key: u64| #[trigger]
            self.remote@.contains_key(key) && now - self.remote@[key]
                < MAC_AGE implies kept@.contains_key(key) by {}
        self.remote = kept;
        self.next_expiry = now + MAC_AGE;
        assert(self@.remote =~= aged(old(self)@, now as int).remote);
    }
}

impl Default for MacTable {
    fn default() -> (table: Self)
        ensures
            table@.remote == Map::<Seq<u8>, int>::empty(),
            MAC_AGE <= table@.next_expiry <= clock::last_tick() + MAC_AGE,
    {
        MacTable::with_clock(Clock::start())
    }
}

/// A frame that comes back from the LAN with a source learned from the tunnel is recognised
/// for as long as the address counts.
pub proof fn learned_source_is_reflected(
    table: MacModel,
    learned_frame: Seq<u8>,
    frame: Seq<u8>,
    then: int,
    now: int,
)
    requires
        learnable(learned_frame),
        source_spec(frame) == source_spec(learned_frame),
        now - then < MAC_AGE,
    ensures
        reflected(learned(table, learned_frame, then), frame, now),
{
}

/// An address that was not seen again within [`MAC_AGE`] no longer counts.
pub proof fn learned_source_is_forgotten(
    table: MacModel,
    learned_frame: Seq<u8>,
    frame: Seq<u8>,
    then: int,
    now: int,
)
    requires
        learnable(learned_frame),
        source_spec(frame) == source_spec(learned_frame),
        now - then >= MAC_AGE,
    ensures
        !reflected(learned(table, learned_frame, then), frame, now),
{
}

/// Dropping old addresses changes no later answer.
pub proof fn aging_changes_no_answer(table: MacModel, frame: Seq<u8>, then: int, now: int)
    requires
        then <= now,
    ensures
        reflected(aged(table, then), frame, now) == reflected(table, frame, now),
{
}

/// What a frame from the tunnel leaves behind: its bytes 6 to 12 and the time, if it has them and
/// they are the address of one host, and nothing if not.
pub proof fn learning_bytes(table: MacModel, frame: Seq<u8>, now: int)
    ensures
        learned(table, frame, now).next_expiry == table.next_expiry,
        frame.len() >= 12 && frame[6] % 2 == 0 ==> learned(table, frame, now).remote
            == table.remote.insert(frame.subrange(6, 12), now),
        frame.len() < 12 || frame[6] % 2 == 1 ==> learned(table, frame, now).remote == table.remote,
{
    if frame.len() >= 12 {
        assert(frame.subrange(6, 12)[0] == frame[6]);
    }
}

/// A frame counts as reflected if bytes 6 to 12 of it were learned less than five minutes ago.
pub proof fn reflection_bytes(table: MacModel, frame: Seq<u8>, now: int)
    ensures
        reflected(table, frame, now) <==> {
            &&& frame.len() >= 12
            &&& table.remote.contains_key(frame.subrange(6, 12))
            &&& now - table.remote[frame.subrange(6, 12)] < 300_000_000_000
        },
{
}

/// A frame that is heard from the tunnel and has the address of one host in bytes 6 to 12 makes
/// every frame with the same bytes there count as reflected for five minutes, and no other frame
/// count as anything else than before.
pub proof fn heard_frames_are_found(
    table: MacModel,
    heard: Seq<u8>,
    frame: Seq<u8>,
    then: int,
    now: int,
)
    requires
        heard.len() >= 12,
        heard[6] % 2 == 0,
        frame.len() >= 12,
        then <= now,
    ensures
        (forall|k: int| 6 <= k < 12 ==> #[trigger] frame[k] == heard[k]) ==> reflected(
            learned(table, heard, then),
            frame,
            now,
        ) == (now < then + 300_000_000_000),
        (exists|k: int| 6 <= k < 12 && #[trigger] frame[k] != heard[k]) ==> reflected(
            learned(table, heard, then),
            frame,
            now,
        ) == reflected(table, frame, now),
{
    learning_bytes(table, heard, then);
    reflection_bytes(learned(table, heard, then), frame, now);
    let mine = frame.subrange(6, 12);
    let theirs = heard.subrange(6, 12);
    if forall|k: int| 6 <= k < 12 ==> #[trigger] frame[k] == heard[k] {
        assert(mine =~= theirs);
    } else {
        let k = choose|k: int| 6 <= k < 12 && #[trigger] frame[k] != heard[k];
        assert(mine[k - 6] != theirs[k - 6]);
    }
}

/// Once five minutes have passed since addresses were last looked through, exactly those that
/// were heard within the last five minutes stay; before that, all of them.
pub proof fn aging_bytes(table: MacModel, mac: Seq<u8>, now: int)
    ensures
        now < table.next_expiry ==> aged(table, now) == table,
        now >= table.next_expiry ==> {
            &&& aged(table, now).next_expiry == now + 300_000_000_000
            &&& aged(table, now).remote.contains_key(mac) <==> table.remote.contains_key(mac) && now
                - table.remote[mac] < 300_000_000_000
            &&& aged(table, now).remote.contains_key(mac) ==> aged(table, now).remote[mac]
                == table.remote[mac]
        },
{
}

} // verus!
