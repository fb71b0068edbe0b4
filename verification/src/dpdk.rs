//! Packet buffers as DPDK lays them out: bytes with room before and behind them.

use crate::bytes;
use crate::bytes::push_bytes;
use crate::error::Error;
use crate::text;
use vstd::prelude::*;
use vstd::string::StringExecFns;

verus! {

/// Room that a fresh buffer keeps before its data.
pub const HEADROOM: usize = 128;

/// Largest buffer: lengths and offsets within a segment have 16 bits.
pub const MAX_BUFFER: usize = 65_535;

/// Most segments of one packet.
pub const MAX_SEGMENTS: usize = 65_535;

/// One segment of a packet: `length` bytes of data that start `offset` bytes into the buffer.
#[derive(Debug)]
pub struct Segment {
    buffer: Vec<u8>,
    offset: usize,
    length: usize,
}

/// What a segment holds.
pub struct SegmentModel {
    pub buffer: Seq<u8>,
    pub offset: int,
    pub length: int,
}

impl SegmentModel {
    pub open spec fn wf(self) -> bool {
        &&& 0 <= self.offset
        &&& 0 <= self.length
        &&& self.offset + self.length <= self.buffer.len() <= MAX_BUFFER
    }

    /// The bytes that belong to the packet.
    pub open spec fn data(self) -> Seq<u8> {
        self.buffer.subrange(self.offset, self.offset + self.length)
    }

    /// The room behind the data.
    pub open spec fn tailroom(self) -> int {
        self.buffer.len() - self.offset - self.length
    }

    /// The segment with `data` written where its data starts, and nothing else as its data.
    pub open spec fn replaced(self, data: Seq<u8>) -> SegmentModel {
        SegmentModel {
            buffer: self.buffer.take(self.offset) + (data + self.buffer.skip(
                self.offset + data.len(),
            )),
            offset: self.offset,
            length: data.len() as int,
        }
    }

    /// The segment with `header` in front of its data, in the last bytes of the headroom.
    pub open spec fn prepended(self, header: Seq<u8>) -> SegmentModel {
        SegmentModel {
            buffer: self.buffer.take(self.offset - header.len()) + (header + self.buffer.skip(
                self.offset,
            )),
            offset: self.offset - header.len(),
            length: self.length + header.len(),
        }
    }

    /// The segment with `tail` behind its data, in the first bytes of the tailroom.
    pub open spec fn appended(self, tail: Seq<u8>) -> SegmentModel {
        let end = self.offset + self.length;
        SegmentModel {
            buffer: self.buffer.take(end) + (tail + self.buffer.skip(end + tail.len())),
            offset: self.offset,
            length: self.length + tail.len(),
        }
    }

    /// The segment without the first `count` bytes of its data.
    pub open spec fn adjusted(self, count: int) -> SegmentModel {
        SegmentModel { buffer: self.buffer, offset: self.offset + count, length: self.length - count }
    }

    /// The segment without the last `count` bytes of its data.
    pub open spec fn trimmed(self, count: int) -> SegmentModel {
        SegmentModel { buffer: self.buffer, offset: self.offset, length: self.length - count }
    }

    /// The segment with other bytes in place of its data.
    pub open spec fn overwritten(self, data: Seq<u8>) -> SegmentModel {
        SegmentModel {
            buffer: self.buffer.take(self.offset) + (data + self.buffer.skip(
                self.offset + self.length,
            )),
            offset: self.offset,
            length: self.length,
        }
    }
}

impl View for Segment {
    type V = SegmentModel;

    closed spec fn view(&self) -> SegmentModel {
        SegmentModel {
            buffer: self.buffer@,
            offset: self.offset as int,
            length: self.length as int,
        }
    }
}

impl Segment {
    fn data_mut(&mut self) -> (data: &mut [u8])
        requires
            old(self)@.wf(),
        ensures
            data@ == old(self)@.data(),
            final(data)@.len() == data@.len() ==> final(self)@ == old(self)@.overwritten(final(data)@),
    {
        let (head, rest) = self.buffer.as_mut_slice().split_at_mut(self.offset);
        let (data, tail) = rest.split_at_mut(self.length);
        proof {
            let before = old(self)@;
            assert(head@ =~= before.buffer.take(before.offset));
            assert(data@ =~= before.data());
            assert(tail@ =~= before.buffer.skip(before.offset + before.length));
        }
        data
    }

    fn prepend(&mut self, length: usize) -> (header: &mut [u8])
        requires
            old(self)@.wf(),
            length <= old(self)@.offset,
        ensures
            header@ == old(self)@.buffer.subrange(old(self)@.offset - length, old(self)@.offset),
            final(header)@.len() == header@.len() ==> final(self)@ == old(self)@.prepended(
                final(header)@,
            ),
    {
        let ghost before = self@;
        self.offset = self.offset - length;
        self.length = self.length + length;
        let (head, rest) = self.buffer.as_mut_slice().split_at_mut(self.offset);
        let (header, tail) = rest.split_at_mut(length);
        proof {
            assert(head@ =~= before.buffer.take(before.offset - length));
            assert(header@ =~= before.buffer.subrange(before.offset - length, before.offset));
            assert(tail@ =~= before.buffer.skip(before.offset));
        }
        header
    }

    fn tailroom(&self) -> (room: usize)
        requires
            self@.wf(),
        ensures
            room == self@.tailroom(),
    {
        self.buffer.len() - self.offset - self.length
    }

    fn append(&mut self, length: usize) -> (tail: &mut [u8])
        requires
            old(self)@.wf(),
            length <= old(self)@.tailroom(),
        ensures
            ({
                let end = old(self)@.offset + old(self)@.length;
                tail@ == old(self)@.buffer.subrange(end, end + length)
            }),
            final(tail)@.len() == tail@.len() ==> final(self)@ == old(self)@.appended(
                final(tail)@,
            ),
    {
        let ghost before = self@;
        let ghost end = before.offset + before.length;
        let start: usize = self.offset + self.length;
        self.length = self.length + length;
        let (head, rest) = self.buffer.as_mut_slice().split_at_mut(start);
        let (tail, room) = rest.split_at_mut(length);
        proof {
            assert(head@ =~= before.buffer.take(end));
            assert(tail@ =~= before.buffer.subrange(end, end + length));
            assert(room@ =~= before.buffer.skip(end + length));
        }
        tail
    }

    /// A segment that holds `bytes` with the given room around them.
    fn holding(headroom: usize, bytes: &[u8], tailroom: usize) -> (segment: Segment)
        requires
            headroom + bytes@.len() + tailroom <= MAX_BUFFER,
        ensures
            segment@ == segment_holding(headroom as int, bytes@, tailroom as int),
    {
        let mut buffer: Vec<u8> = Vec::with_capacity(headroom + bytes.len() + tailroom);
        buffer.resize(headroom, 0);
        assert(buffer@ =~= bytes::zeros(headroom as int));
        push_bytes(&mut buffer, bytes);
        let ghost front = buffer@;
        let filled: usize = buffer.len();
        buffer.resize(filled + tailroom, 0);
        assert(buffer@ =~= front + bytes::zeros(tailroom as int));
        Segment { buffer, offset: headroom, length: bytes.len() }
    }
}

/// A segment with zero bytes around its data.
pub open spec fn segment_holding(headroom: int, bytes: Seq<u8>, tailroom: int) -> SegmentModel {
    SegmentModel {
        buffer: bytes::zeros(headroom) + bytes + bytes::zeros(tailroom),
        offset: headroom,
        length: bytes.len() as int,
    }
}

/// A packet in one or more segments.
#[derive(Debug)]
pub struct Packet {
    first: Segment,
    rest: Vec<Segment>,
}

/// What a packet holds.
pub struct PacketModel {
    pub first: SegmentModel,
    pub rest: Seq<SegmentModel>,
}

/// The number of bytes in all of the segments.
pub open spec fn total_length(segments: Seq<SegmentModel>) -> int
    decreases segments.len(),
{
    if segments.len() == 0 {
        0
    } else {
        total_length(segments.drop_last()) + segments.last().length
    }
}

proof fn lemma_total_bound(segments: Seq<SegmentModel>)
    requires
        forall|i: int| 0 <= i < segments.len() ==> (#[trigger] segments[i]).wf(),
    ensures
        0 <= total_length(segments) <= segments.len() * MAX_BUFFER,
    decreases segments.len(),
{
    if segments.len() > 0 {
        let front = segments.drop_last();
        assert forall|i: int| 0 <= i < front.len() implies (#[trigger] front[i]).wf() by {
            assert(front[i] == segments[i]);
        }
        lemma_total_bound(front);
        assert(segments[segments.len() - 1].wf());
    }
}

impl PacketModel {
    pub open spec fn wf(self) -> bool {
        &&& self.first.wf()
        &&& self.rest.len() < MAX_SEGMENTS
        &&& forall|i: int| 0 <= i < self.rest.len() ==> (#[trigger] self.rest[i]).wf()
    }

    /// Whether the bytes of the packet lie in one piece.
    pub open spec fn single(self) -> bool {
        self.rest.len() == 0
    }

    /// The bytes of a packet in one segment.
    pub open spec fn data(self) -> Seq<u8> {
        self.first.data()
    }

    /// The number of bytes in the packet.
    pub open spec fn len(self) -> int {
        self.first.length + total_length(self.rest)
    }

    /// The packet with another first segment.
    pub open spec fn with_first(self, first: SegmentModel) -> PacketModel {
        PacketModel { first, rest: self.rest }
    }

    /// The segment at the end of the packet.
    pub open spec fn last(self) -> SegmentModel {
        if self.single() {
            self.first
        } else {
            self.rest.last()
        }
    }

    /// The packet with another segment at its end.
    pub open spec fn with_last(self, last: SegmentModel) -> PacketModel {
        if self.single() {
            PacketModel { first: last, rest: self.rest }
        } else {
            PacketModel { first: self.first, rest: self.rest.drop_last().push(last) }
        }
    }
}

impl View for Packet {
    type V = PacketModel;

    closed spec fn view(&self) -> PacketModel {
        PacketModel { first: self.first@, rest: self.rest@.map_values(|segment: Segment| segment@) }
    }
}

/// A length that DPDK can take.
pub fn packet_length(length: usize) -> (checked: Result<u16, Error>)
    ensures
        checked == if length <= 65_535 {
            Ok(length as u16)
        } else {
            Err(Error::PacketLength)
        },
        checked matches Ok(number) ==> number == length,
        checked is Err <==> length >= 0x1_0000,
{
    if length <= 65_535 {
        Ok(length as u16)
    } else {
        Err(Error::PacketLength)
    }
}

impl Packet {
    /// A packet in one segment with the given room around its bytes.
    pub fn new(headroom: usize, bytes: &[u8], tailroom: usize) -> (packet: Packet)
        requires
            headroom + bytes@.len() + tailroom <= MAX_BUFFER,
        ensures
            packet@.wf(),
            packet@.single(),
            packet@.first == segment_holding(headroom as int, bytes@, tailroom as int),
            packet@.data() == bytes@,
    {
        let packet = Packet { first: Segment::holding(headroom, bytes, tailroom), rest: Vec::new() };
        assert(packet@.data() =~= bytes@);
        packet
    }

    /// Adds a segment behind those that the packet has.
    pub fn chain(&mut self, headroom: usize, bytes: &[u8], tailroom: usize)
        requires
            old(self)@.wf(),
            old(self)@.rest.len() + 1 < MAX_SEGMENTS,
            headroom + bytes@.len() + tailroom <= MAX_BUFFER,
        ensures
            final(self)@.wf(),
            final(self)@ == (PacketModel {
                first: old(self)@.first,
                rest: old(self)@.rest.push(
                    segment_holding(headroom as int, bytes@, tailroom as int),
                ),
            }),
    {
        self.rest.push(Segment::holding(headroom, bytes, tailroom));
        assert(self@.rest =~= old(self)@.rest.push(
            segment_holding(headroom as int, bytes@, tailroom as int),
        ));
    }

    /// The number of bytes in the packet.
    pub fn len(&self) -> (length: usize)
        requires
            self@.wf(),
        ensures
            length == self@.len(),
    {
        let mut length: usize = self.first.length;
        let mut i: usize = 0;
        while i < self.rest.len()
            invariant
                self@.wf(),
                i <= self.rest@.len(),
                length == self@.first.length + total_length(self@.rest.take(i as int)),
            decreases self.rest@.len() - i,
        {
            let ghost front = self@.rest.take(i + 1);
            proof {
                assert(front.drop_last() =~= self@.rest.take(i as int));
                assert(front.last() == self.rest@[i as int]@);
                assert forall|k: int| 0 <= k < front.len() implies (#[trigger] front[k]).wf() by {
                    assert(front[k] == self@.rest[k]);
                }
                lemma_total_bound(front);
            }
            length = length + self.rest[i].length;
            i += 1;
        }
        assert(self@.rest.take(i as int) =~= self@.rest);
        length
    }

    /// Whether the packet has no bytes.
    pub fn is_empty(&self) -> (empty: bool)
        requires
            self@.wf(),
        ensures
            empty == (self@.len() == 0),
    {
        self.len() == 0
    }

    /// The room behind the last byte of the packet.
    pub fn tailroom(&self) -> (room: usize)
        requires
            self@.wf(),
        ensures
            room == self@.last().tailroom(),
    {
        let count: usize = self.rest.len();
        if count == 0 {
            self.first.tailroom()
        } else {
            proof {
                assert(self@.rest.last() == self.rest@[count - 1]@);
                assert(self@.rest[count - 1].wf());
            }
            self.rest[count - 1].tailroom()
        }
    }

    /// The bytes of the packet, if they lie in one segment.
    pub fn data(&self) -> (data: Option<&[u8]>)
        requires
            self@.wf(),
        ensures
            match data {
                Some(data) => self@.single() && data@ == self@.data(),
                None => !self@.single(),
            },
    {
        if self.rest.len() != 0 {
            return None;
        }
        Some(vstd::slice::slice_subrange(
            self.first.buffer.as_slice(),
            self.first.offset,
            self.first.offset + self.first.length,
        ))
    }

    /// The bytes of the packet for changing, if they lie in one segment.
    pub fn data_mut(&mut self) -> (data: Option<&mut [u8]>)
        requires
            old(self)@.wf(),
        ensures
            match data {
                Some(data) => {
                    &&& old(self)@.single()
                    &&& data@ == old(self)@.data()
                    &&& final(data)@.len() == data@.len() ==> final(self)@ == old(self)@.with_first(
                        old(self)@.first.overwritten(final(data)@),
                    )
                },
                None => !old(self)@.single() && final(self)@ == old(self)@,
            },
    {
        if self.rest.len() != 0 {
            return None;
        }
        Some(self.first.data_mut())
    }

    /// Takes `length` bytes of headroom into the packet, to be filled in.
    pub fn prepend(&mut self, length: usize) -> (header: Result<&mut [u8], Error>)
        requires
            old(self)@.wf(),
        ensures
            match header {
                Ok(header) => {
                    let first = old(self)@.first;
                    &&& length <= first.offset
                    &&& header@ == first.buffer.subrange(first.offset - length, first.offset)
                    &&& final(header)@.len() == header@.len() ==> final(self)@ == old(
                        self,
                    )@.with_first(first.prepended(final(header)@))
                    &&& final(header)@.len() == header@.len() ==> final(self)@.first.data()
                        == final(header)@ + first.data()
                },
                Err(error) => {
                    &&& length > old(self)@.first.offset
                    &&& error == if length > 65_535 {
                        Error::PacketLength
                    } else {
                        Error::Headroom
                    }
                    &&& final(self)@ == old(self)@
                },
            },
    {
        packet_length(length)?;
        if length > self.first.offset {
            return Err(Error::Headroom);
        }
        proof {
            let first = self@.first;
            assert forall|header: Seq<u8>| header.len() == length implies (
            #[trigger] first.prepended(header)).data() == header + first.data() by {
                segment_bytes(first, header, 0);
            }
        }
        Ok(self.first.prepend(length))
    }

    /// Drops the first `length` bytes.
    pub fn adjust(&mut self, length: usize) -> (adjusted: Result<(), Error>)
        requires
            old(self)@.wf(),
        ensures
            match adjusted {
                Ok(_) => {
                    &&& length <= old(self)@.first.length
                    &&& final(self)@.wf()
                    &&& final(self)@ == old(self)@.with_first(
                        old(self)@.first.adjusted(length as int),
                    )
                    &&& final(self)@.first.data() == old(self)@.first.data().subrange(
                        length as int,
                        old(self)@.first.length,
                    )
                    &&& final(self)@.rest == old(self)@.rest
                },
                Err(error) => {
                    &&& length > old(self)@.first.length
                    &&& error == if length > 65_535 {
                        Error::PacketLength
                    } else {
                        Error::Adjustment
                    }
                    &&& final(self)@ == old(self)@
                },
            },
    {
        packet_length(length)?;
        if length > self.first.length {
            return Err(Error::Adjustment);
        }
        proof {
            segment_bytes(self@.first, Seq::empty(), length as int);
        }
        self.first.offset = self.first.offset + length;
        self.first.length = self.first.length - length;
        Ok(())
    }

    /// Takes `length` bytes of tailroom into the packet, to be filled in.
    pub fn append(&mut self, length: usize) -> (tail: Result<&mut [u8], Error>)
        requires
            old(self)@.wf(),
        ensures
            match tail {
                Ok(tail) => {
                    let last = old(self)@.last();
                    &&& length <= last.tailroom()
                    &&& tail@ == last.buffer.subrange(
                        last.offset + last.length,
                        last.offset + last.length + length,
                    )
                    &&& final(tail)@.len() == tail@.len() ==> final(self)@ == old(self)@.with_last(
                        last.appended(final(tail)@),
                    )
                    &&& final(tail)@.len() == tail@.len() ==> final(self)@.last().data()
                        == last.data() + final(tail)@
                },
                Err(error) => {
                    &&& length > old(self)@.last().tailroom()
                    &&& error == if length > 65_535 {
                        Error::PacketLength
                    } else {
                        Error::Tailroom
                    }
                    &&& final(self)@ == old(self)@
                },
            },
    {
        let count: usize = self.rest.len();
        proof {
            if count > 0 {
                assert(self@.rest.last() == self.rest@[count - 1]@);
                assert(self@.rest[count - 1].wf());
            }
        }
        packet_length(length)?;
        proof {
            let last = self@.last();
            assert forall|tail: Seq<u8>|
                tail.len() == length && length <= last.tailroom() implies (#[trigger] last.appended(
                tail,
            )).data() == last.data() + tail by {
                segment_bytes(last, tail, 0);
            }
        }
        if count == 0 {
            if length > self.first.tailroom() {
                return Err(Error::Tailroom);
            }
            Ok(self.first.append(length))
        } else {
            if length > self.rest[count - 1].tailroom() {
                return Err(Error::Tailroom);
            }
            let ghost before = self.rest@;
            let segment = &mut self.rest[count - 1];
            proof {
                let after = before.update(count - 1, *final(segment));
                assert(after.map_values(|segment: Segment| segment@) =~= old(
                    self,
                )@.rest.drop_last().push(final(segment)@));
            }
            Ok(segment.append(length))
        }
    }

    /// Drops the last `length` bytes.
    pub fn trim_tail(&mut self, length: usize) -> (trimmed: Result<(), Error>)
        requires
            old(self)@.wf(),
        ensures
            match trimmed {
                Ok(_) => {
                    &&& length <= old(self)@.last().length
                    &&& final(self)@.wf()
                    &&& final(self)@ == old(self)@.with_last(
                        old(self)@.last().trimmed(length as int),
                    )
                    &&& final(self)@.last().data() == old(self)@.last().data().subrange(
                        0,
                        old(self)@.last().length - length,
                    )
                    &&& final(self)@.rest.len() == old(self)@.rest.len()
                },
                Err(error) => {
                    &&& length > old(self)@.last().length
                    &&& error == if length > 65_535 {
                        Error::PacketLength
                    } else {
                        Error::Adjustment
                    }
                    &&& final(self)@ == old(self)@
                },
            },
    {
        let count: usize = self.rest.len();
        proof {
            if count > 0 {
                assert(self@.rest.last() == self.rest@[count - 1]@);
                assert(self@.rest[count - 1].wf());
            }
        }
        packet_length(length)?;
        proof {
            if length <= self@.last().length {
                segment_bytes(self@.last(), Seq::empty(), length as int);
            }
        }
        if count == 0 {
            if length > self.first.length {
                return Err(Error::Adjustment);
            }
            self.first.length = self.first.length - length;
        } else {
            if length > self.rest[count - 1].length {
                return Err(Error::Adjustment);
            }
            let ghost last = self.rest@[count - 1]@;
            let left: usize = self.rest[count - 1].length - length;
            self.rest[count - 1].length = left;
            assert(self@.rest =~= old(self)@.rest.drop_last().push(last.trimmed(length as int)));
        }
        Ok(())
    }
}

/// How the pool of packet buffers is laid out.
#[derive(Clone, Copy, Debug)]
pub struct MempoolConfig {
    pub packet_count: u32,
    pub cache_size: u32,
    pub data_room_size: u16,
    pub socket_id: Option<i32>,
}

impl Default for MempoolConfig {
    fn default() -> (config: Self)
        ensures
            config == (MempoolConfig {
                packet_count: 8191,
                cache_size: 256,
                data_room_size: 2176,
                socket_id: None,
            }),
    {
        MempoolConfig { packet_count: 8191, cache_size: 256, data_room_size: 2176, socket_id: None }
    }
}

/// The packet buffers that the process works with: how they are laid out, and how many fresh
/// ones the pool can give.
#[derive(Clone, Copy, Debug)]
pub struct Environment {
    pub config: MempoolConfig,
    pub available: usize,
}

/// The buffers that are left when `count` have been taken.
pub open spec fn after_taking(dpdk: Environment, count: int) -> Environment {
    Environment {
        config: dpdk.config,
        available: if count <= dpdk.available {
            (dpdk.available - count) as usize
        } else {
            0
        },
    }
}

/// The room before the data of a fresh buffer.
pub open spec fn fresh_headroom(config: MempoolConfig) -> int {
    if config.data_room_size < HEADROOM {
        config.data_room_size as int
    } else {
        HEADROOM as int
    }
}

/// A fresh buffer with `bytes` in it, or why there is none: the pool is exhausted, or they cannot
/// be put there.
pub open spec fn allocated(dpdk: Environment, bytes: Seq<u8>) -> Result<PacketModel, Error> {
    let headroom = fresh_headroom(dpdk.config);
    let room = dpdk.config.data_room_size - headroom;
    if dpdk.available == 0 {
        Err(Error::MbufAllocation)
    } else if bytes.len() > 65_535 {
        Err(Error::PacketLength)
    } else if bytes.len() > room {
        Err(Error::Tailroom)
    } else {
        Ok(
            PacketModel {
                first: segment_holding(headroom, bytes, room - bytes.len()),
                rest: Seq::empty(),
            },
        )
    }
}

impl Environment {
    /// Puts `bytes` into a fresh buffer.
    pub fn packet(&self, bytes: &[u8]) -> (packet: Result<Packet, Error>)
        ensures
            match packet {
                Ok(packet) => {
                    &&& packet@.wf()
                    &&& packet@.data() == bytes@
                    &&& allocated(*self, bytes@) == Ok::<PacketModel, Error>(packet@)
                },
                Err(error) => allocated(*self, bytes@) == Err::<PacketModel, Error>(error),
            },
    {
        if self.available == 0 {
            return Err(Error::MbufAllocation);
        }
        packet_length(bytes.len())?;
        let size: usize = self.config.data_room_size as usize;
        let headroom: usize = if size < HEADROOM {
            size
        } else {
            HEADROOM
        };
        if bytes.len() > size - headroom {
            return Err(Error::Tailroom);
        }
        let packet = Packet::new(headroom, bytes, size - headroom - bytes.len());
        assert(packet@.rest =~= Seq::empty());
        Ok(packet)
    }
}

/// Whether a number of packets can be asked for in one receive burst.
pub fn validate_burst(count: u16) -> (valid: Result<(), Error>)
    ensures
        valid == if count != 0 && count % 8 == 0 {
            Ok(())
        } else {
            Err(Error::RxBurst)
        },
        valid is Ok <==> count >= 8 && count % 8 == 0,
{
    if count != 0 && count % 8 == 0 {
        Ok(())
    } else {
        Err(Error::RxBurst)
    }
}

/// The number of packets to hand over in one transmit burst.
pub fn burst_count(packets: usize) -> (count: Result<u16, Error>)
    ensures
        count == if packets <= 65_535 {
            Ok(packets as u16)
        } else {
            Err(Error::TxBurst)
        },
        count matches Ok(number) ==> number == packets,
        count is Err <==> packets >= 0x1_0000,
{
    if packets <= 65_535 {
        Ok(packets as u16)
    } else {
        Err(Error::TxBurst)
    }
}

/// Removes the packets that a transmit burst took; the others wait for the next one.
pub fn transmitted(packets: &mut Vec<Packet>, sent: usize)
    requires
        sent <= old(packets)@.len(),
    ensures
        final(packets)@ == old(packets)@.skip(sent as int),
        final(packets)@.len() + sent == old(packets)@.len(),
        forall|i: int|
            sent <= i < old(packets)@.len() ==> final(packets)@[i - sent] == #[trigger] old(
                packets,
            )@[i],
{
    let waiting = packets.split_off(sent);
    *packets = waiting;
}

/// What a DPDK call that answers with a negative error number has to say.
pub fn check(code: i32) -> (checked: Result<i32, Error>)
    requires
        code > i32::MIN,
    ensures
        checked == if code >= 0 {
            Ok(code)
        } else {
            Err(Error::Os((-code) as i32))
        },
        checked matches Ok(value) ==> value == code && value >= 0,
        checked matches Err(error) ==> error matches Error::Os(number) && number + code == 0
            && number > 0,
{
    if code >= 0 {
        Ok(code)
    } else {
        Err(Error::Os(-code))
    }
}

/// The error that the last failed DPDK call left behind.
pub fn last_error(errno: i32) -> (error: Error)
    ensures
        error == if errno > 0 {
            Error::Os(errno)
        } else {
            Error::NoErrno
        },
        error is NoErrno <==> errno <= 0,
        error matches Error::Os(number) ==> number == errno,
{
    if errno > 0 {
        Error::Os(errno)
    } else {
        Error::NoErrno
    }
}

/// What the answer of `rte_eal_init` says: how many arguments the EAL took, or the error that it
/// left behind.
pub fn eal_started(code: i32, errno: i32) -> (started: Result<usize, Error>)
    ensures
        started == if code >= 0 {
            Ok::<usize, Error>(code as usize)
        } else if errno > 0 {
            Err(Error::Os(errno))
        } else {
            Err(Error::NoErrno)
        },
        started is Ok <==> code >= 0,
        started matches Ok(taken) ==> taken == code,
        started matches Err(Error::Os(number)) ==> number == errno && number > 0,
{
    if code >= 0 {
        Ok(code as usize)
    } else {
        Err(last_error(errno))
    }
}

/// The name of the pool of a process.
pub fn pool_name(process: u32) -> (name: String)
    ensures
        name@ == "etherip_"@ + text::decimal_spec(process as int),
        text::has_prefix(name@, "etherip_"@),
        text::number_spec(name@.skip("etherip_"@.len() as int), 10, 0xffff_ffff) == Some(
            process as int,
        ),
{
    proof {
        text::decimal_reads_back(process as int, 0xffff_ffff);
        let digits = text::decimal_spec(process as int);
        text::affixes(digits, "etherip_"@, digits);
        assert(("etherip_"@ + digits).skip("etherip_"@.len() as int) =~= digits);
    }
    let number = text::decimal(process);
    "etherip_".to_owned().concat(number.as_str())
}

/// The bytes of an argument with the terminator that C expects.
pub open spec fn c_string(argument: Seq<char>) -> Seq<u8> {
    vstd::utf8::encode_utf8(argument).push(0)
}

/// Makes C strings of the EAL arguments; none of them may hold a NUL.
pub fn eal_arguments(arguments: &[String]) -> (strings: Result<Vec<Vec<u8>>, Error>)
    ensures
        match strings {
            Ok(strings) => {
                &&& strings@.len() == arguments@.len()
                &&& forall|i: int|
                    0 <= i < arguments@.len() ==> (#[trigger] strings@[i])@ == c_string(
                        arguments@[i]@,
                    )
                &&& forall|i: int|
                    0 <= i < arguments@.len() ==> (#[trigger] strings@[i])@.drop_last()
                        == vstd::utf8::encode_utf8(arguments@[i]@) && strings@[i]@.last() == 0
                &&& forall|i: int|
                    0 <= i < arguments@.len() ==> !vstd::utf8::encode_utf8(
                        #[trigger] arguments@[i]@,
                    ).contains(0)
            },
            Err(error) => {
                &&& error == Error::NulArgument
                &&& exists|i: int|
                    0 <= i < arguments@.len() && vstd::utf8::encode_utf8(
                        #[trigger] arguments@[i]@,
                    ).contains(0)
            },
        },
{
    let mut strings: Vec<Vec<u8>> = Vec::new();
    let mut i: usize = 0;
    while i < arguments.len()
        invariant
            i <= arguments@.len(),
            strings@.len() == i,
            forall|k: int| 0 <= k < i ==> (#[trigger] strings@[k])@ == c_string(arguments@[k]@),
            forall|k: int|
                0 <= k < i ==> !vstd::utf8::encode_utf8(#[trigger] arguments@[k]@).contains(0),
        decreases arguments@.len() - i,
    {
        let bytes: &[u8] = arguments[i].as_str().as_bytes();
        if has_nul(bytes) {
            return Err(Error::NulArgument);
        }
        let mut string: Vec<u8> = vstd::slice::slice_to_vec(bytes);
        string.push(0);
        strings.push(string);
        i += 1;
    }
    assert forall|k: int| 0 <= k < arguments@.len() implies (#[trigger] strings@[k])@.drop_last()
        == vstd::utf8::encode_utf8(arguments@[k]@) && strings@[k]@.last() == 0 by {
        assert(strings@[k]@.drop_last() =~= vstd::utf8::encode_utf8(arguments@[k]@));
    }
    Ok(strings)
}

fn has_nul(bytes: &[u8]) -> (found: bool)
    ensures
        found == bytes@.contains(0),
{
    let mut i: usize = 0;
    while i < bytes.len()
        invariant
            i <= bytes@.len(),
            forall|k: int| 0 <= k < i ==> bytes@[k] != 0,
        decreases bytes@.len() - i,
    {
        if bytes[i] == 0 {
            assert(bytes@[i as int] == 0);
            return true;
        }
        i += 1;
    }
    false
}

/// What the operations on a segment do to its bytes, each within the buffer that there is: a header
/// goes before the data, a tail behind it, and what is dropped leaves the rest as it is.
pub proof fn segment_bytes(segment: SegmentModel, data: Seq<u8>, count: int)
    requires
        segment.wf(),
    ensures
        data.len() <= segment.offset ==> {
            &&& segment.prepended(data).wf()
            &&& segment.prepended(data).data() == data + segment.data()
            &&& segment.prepended(data).buffer.len() == segment.buffer.len()
            &&& segment.prepended(data).tailroom() == segment.tailroom()
        },
        segment.offset + segment.length + data.len() <= segment.buffer.len() ==> {
            &&& segment.appended(data).wf()
            &&& segment.appended(data).data() == segment.data() + data
            &&& segment.appended(data).buffer.len() == segment.buffer.len()
            &&& segment.appended(data).offset == segment.offset
        },
        0 <= count <= segment.length ==> {
            &&& segment.adjusted(count).wf()
            &&& segment.adjusted(count).data() == segment.data().subrange(count, segment.length)
            &&& segment.adjusted(count).buffer == segment.buffer
            &&& segment.trimmed(count).wf()
            &&& segment.trimmed(count).data() == segment.data().subrange(
                0,
                segment.length - count,
            )
            &&& segment.trimmed(count).buffer == segment.buffer
            &&& segment.trimmed(count).offset == segment.offset
        },
        data.len() == segment.length ==> {
            &&& segment.overwritten(data).wf()
            &&& segment.overwritten(data).data() == data
            &&& segment.overwritten(data).buffer.len() == segment.buffer.len()
            &&& segment.overwritten(data).offset == segment.offset
        },
        segment.offset + data.len() <= segment.buffer.len() ==> {
            &&& segment.replaced(data).wf()
            &&& segment.replaced(data).data() == data
            &&& segment.replaced(data).buffer.len() == segment.buffer.len()
            &&& segment.replaced(data).offset == segment.offset
        },
        segment.data().len() == segment.length,
        forall|k: int|
            0 <= k < segment.length ==> #[trigger] segment.data()[k] == segment.buffer[segment.offset
                + k],
        segment.tailroom() == segment.buffer.len() - segment.offset - segment.data().len(),
{
    if data.len() <= segment.offset {
        assert(segment.prepended(data).data() =~= data + segment.data());
    }
    if segment.offset + segment.length + data.len() <= segment.buffer.len() {
        assert(segment.appended(data).data() =~= segment.data() + data);
    }
    if 0 <= count <= segment.length {
        assert(segment.adjusted(count).data() =~= segment.data().subrange(count, segment.length));
        assert(segment.trimmed(count).data() =~= segment.data().subrange(
            0,
            segment.length - count,
        ));
    }
    if data.len() == segment.length {
        assert(segment.overwritten(data).data() =~= data);
    }
    if segment.offset + data.len() <= segment.buffer.len() {
        assert(segment.replaced(data).data() =~= data);
    }
}

/// A fresh buffer is had whenever the pool is not exhausted and the bytes have room behind a
/// headroom of 128 bytes; it then holds just the bytes, and is as large as the pool's buffers are.
pub proof fn allocated_bytes(dpdk: Environment, bytes: Seq<u8>)
    ensures
        ({
            let size = dpdk.config.data_room_size as int;
            match allocated(dpdk, bytes) {
                Ok(packet) => {
                    &&& dpdk.available > 0
                    &&& bytes.len() == 0 || 128 + bytes.len() <= size
                    &&& packet.wf() && packet.single()
                    &&& packet.data() == bytes
                    &&& packet.first.offset == if size < 128 {
                        size
                    } else {
                        128
                    }
                    &&& packet.first.buffer.len() == size
                },
                Err(Error::MbufAllocation) => dpdk.available == 0,
                Err(Error::PacketLength) => dpdk.available > 0 && bytes.len() > 65_535,
                Err(Error::Tailroom) => {
                    &&& dpdk.available > 0
                    &&& 0 < bytes.len() <= 65_535
                    &&& 128 + bytes.len() > size
                },
                Err(_) => false,
            }
        }),
{
    if let Ok(packet) = allocated(dpdk, bytes) {
        assert(packet.data() =~= bytes);
    }
}

/// A segment more adds its bytes to the length of a packet.
pub proof fn lengths_add_up(packet: PacketModel, segment: SegmentModel)
    ensures
        (PacketModel { first: segment, rest: Seq::empty() }).len() == segment.length,
        (PacketModel { first: packet.first, rest: packet.rest.push(segment) }).len() == packet.len()
            + segment.length,
{
    assert(packet.rest.push(segment).drop_last() =~= packet.rest);
}

/// The last segment of a packet is the one that was added last, or the first if there is no other.
pub proof fn last_segment(packet: PacketModel, segment: SegmentModel)
    ensures
        (PacketModel { first: segment, rest: Seq::empty() }).last() == segment,
        (PacketModel { first: packet.first, rest: packet.rest.push(segment) }).last() == segment,
        packet.with_last(segment).last() == segment,
        packet.with_last(segment).rest.len() == packet.rest.len(),
        packet.rest.len() > 0 ==> packet.with_last(segment).first == packet.first,
        forall|i: int|
            0 <= i < packet.rest.len() - 1 ==> packet.with_last(segment).rest[i]
                == #[trigger] packet.rest[i],
{
}

/// Lengths and offsets within a segment fit in 16 bits, and a packet has at most 65535 segments.
pub proof fn buffers_are_bounded(packet: PacketModel)
    ensures
        packet.wf() <==> {
            &&& 0 <= packet.first.offset && 0 <= packet.first.length
            &&& packet.first.offset + packet.first.length <= packet.first.buffer.len() <= 65_535
            &&& packet.rest.len() + 1 <= 65_535
            &&& forall|i: int|
                0 <= i < packet.rest.len() ==> 0 <= (#[trigger] packet.rest[i]).offset && 0
                    <= packet.rest[i].length && packet.rest[i].offset + packet.rest[i].length
                    <= packet.rest[i].buffer.len() <= 65_535
        },
{
}

/// A segment that is made for some bytes holds just them, with zeros in the room before and behind
/// them that was asked for.
pub proof fn made_segments(headroom: int, bytes: Seq<u8>, tailroom: int)
    requires
        headroom >= 0,
        tailroom >= 0,
    ensures
        ({
            let segment = segment_holding(headroom, bytes, tailroom);
            &&& segment.data() == bytes
            &&& segment.offset == headroom
            &&& segment.buffer.len() == headroom + bytes.len() + tailroom
            &&& forall|k: int| 0 <= k < headroom ==> #[trigger] segment.buffer[k] == 0
            &&& forall|k: int|
                headroom + bytes.len() <= k < segment.buffer.len() ==> #[trigger] segment.buffer[k]
                    == 0
        }),
{
    let segment = segment_holding(headroom, bytes, tailroom);
    assert(segment.data() =~= bytes);
}

} // verus!
