//! What can go wrong, and how it is put into words.

use crate::text;
use vstd::prelude::*;
use vstd::string::StringExecFns;

verus! {

/// The broad class of an error.
#[derive(Clone, Copy, Debug, PartialEq, Eq, Structural)]
pub enum ErrorKind {
    InvalidInput,
    InvalidData,
    Other,
    /// An error number of the operating system.
    Os(i32),
}

/// Everything that the bridge reports as a failure.
#[derive(Clone, Copy, Debug, PartialEq, Eq, Structural)]
pub enum Error {
    RemoteIpv6Missing,
    NextHopMacMissing,
    DuplicateVlan(u16),
    MultiSegmentVlanPacket,
    MultiSegmentTunnelFrame,
    MultiSegmentLanPacket,
    NoVlanTag,
    /// A frame from the tunnel is too short to put a VLAN tag into.
    ShortFrame,
    PayloadLimit,
    MtuTooSmall,
    Unfragmentable,
    PacketLength,
    Headroom,
    Tailroom,
    Adjustment,
    TxBurst,
    RxBurst,
    NoSuchPort,
    RxQueueId,
    TxQueueId,
    SocketId,
    NulArgument,
    /// No lcore is left for a worker.
    NoLcore,
    /// A worker ended with an error.
    WorkerFailed,
    /// The pool has no packet buffer left.
    MbufAllocation,
    /// The process has fewer lcores than the workers and the main thread need.
    FewLcores { workers: u16, lcores: u32 },
    /// A DPDK call failed with this error number.
    Os(i32),
    /// A DPDK call failed without an error number.
    NoErrno,
}

impl Error {
    pub open spec fn kind_spec(self) -> ErrorKind {
        match self {
            Error::MultiSegmentVlanPacket
            | Error::MultiSegmentTunnelFrame
            | Error::MultiSegmentLanPacket => ErrorKind::InvalidData,
            Error::Headroom
            | Error::Tailroom
            | Error::NoErrno
            | Error::WorkerFailed
            | Error::MbufAllocation => ErrorKind::Other,
            Error::Os(code) => ErrorKind::Os(code),
            _ => ErrorKind::InvalidInput,
        }
    }

    /// The class of the error.
    pub fn kind(&self) -> (kind: ErrorKind)
        ensures
            kind == self.kind_spec(),
    {
        match *self {
            Error::MultiSegmentVlanPacket
            | Error::MultiSegmentTunnelFrame
            | Error::MultiSegmentLanPacket => ErrorKind::InvalidData,
            Error::Headroom
            | Error::Tailroom
            | Error::NoErrno
            | Error::WorkerFailed
            | Error::MbufAllocation => ErrorKind::Other,
            Error::Os(code) => ErrorKind::Os(code),
            _ => ErrorKind::InvalidInput,
        }
    }

    pub open spec fn message_spec(self) -> Seq<char> {
        match self {
            Error::RemoteIpv6Missing => "--remote-ipv6 is required without --tunnel"@,
            Error::NextHopMacMissing => "--next-hop-mac is required without --tunnel"@,
            Error::DuplicateVlan(vlan) => "duplicate tunnel VLAN ID "@ + text::decimal_spec(
                vlan as int,
            ),
            Error::MultiSegmentVlanPacket => "multi-segment VLAN packet"@,
            Error::MultiSegmentTunnelFrame => "multi-segment tunnel frame"@,
            Error::MultiSegmentLanPacket => "multi-segment LAN packet"@,
            Error::NoVlanTag => "LAN frame has no VLAN tag"@,
            Error::ShortFrame => "tunnel frame is too short for a VLAN tag"@,
            Error::PayloadLimit => "EtherIP payload exceeds the IPv6 payload limit"@,
            Error::MtuTooSmall => "MTU too small"@,
            Error::Unfragmentable => "EtherIP frame cannot be fragmented for this MTU"@,
            Error::PacketLength => "packet length exceeds 65535"@,
            Error::Headroom => "mbuf has insufficient headroom"@,
            Error::Tailroom => "mbuf has insufficient tailroom"@,
            Error::Adjustment => "invalid mbuf adjustment"@,
            Error::TxBurst => "TX burst exceeds 65535 packets"@,
            Error::RxBurst => "RX burst must be a non-zero multiple of 8"@,
            Error::NoSuchPort => "DPDK port does not exist"@,
            Error::RxQueueId => "RX queue ID is too large"@,
            Error::TxQueueId => "TX queue ID is too large"@,
            Error::SocketId => "socket ID exceeds i32"@,
            Error::NulArgument => "argument contains NUL"@,
            Error::NoLcore => "not enough worker lcores in the EAL -l mask"@,
            Error::WorkerFailed => "forwarding worker failed"@,
            Error::MbufAllocation => "mbuf allocation failed"@,
            Error::FewLcores { workers, lcores } => "--workers "@ + text::decimal_spec(
                workers as int,
            ) + " requires "@ + text::decimal_spec(workers + 1)
                + " lcores in the EAL -l mask, but only "@ + text::decimal_spec(lcores as int)
                + " are configured"@,
            Error::Os(_) => "DPDK operation failed"@,
            Error::NoErrno => "DPDK operation failed without setting rte_errno"@,
        }
    }

    /// The error in words.
    pub fn message(&self) -> (message: String)
        ensures
            message@ == self.message_spec(),
    {
        let fixed: &str = match *self {
            Error::DuplicateVlan(vlan) => {
                let number = text::decimal(vlan as u32);
                return "duplicate tunnel VLAN ID ".to_owned().concat(number.as_str());
            },
            Error::FewLcores { workers, lcores } => {
                let running = text::decimal(workers as u32);
                let needed = text::decimal(workers as u32 + 1);
                let configured = text::decimal(lcores);
                return "--workers ".to_owned().concat(running.as_str()).concat(" requires ").concat(
                    needed.as_str(),
                ).concat(" lcores in the EAL -l mask, but only ").concat(configured.as_str()).concat(
                    " are configured",
                );
            },
            Error::RemoteIpv6Missing => "--remote-ipv6 is required without --tunnel",
            Error::NextHopMacMissing => "--next-hop-mac is required without --tunnel",
            Error::MultiSegmentVlanPacket => "multi-segment VLAN packet",
            Error::MultiSegmentTunnelFrame => "multi-segment tunnel frame",
            Error::MultiSegmentLanPacket => "multi-segment LAN packet",
            Error::NoVlanTag => "LAN frame has no VLAN tag",
            Error::ShortFrame => "tunnel frame is too short for a VLAN tag",
            Error::PayloadLimit => "EtherIP payload exceeds the IPv6 payload limit",
            Error::MtuTooSmall => "MTU too small",
            Error::Unfragmentable => "EtherIP frame cannot be fragmented for this MTU",
            Error::PacketLength => "packet length exceeds 65535",
            Error::Headroom => "mbuf has insufficient headroom",
            Error::Tailroom => "mbuf has insufficient tailroom",
            Error::Adjustment => "invalid mbuf adjustment",
            Error::TxBurst => "TX burst exceeds 65535 packets",
            Error::RxBurst => "RX burst must be a non-zero multiple of 8",
            Error::NoSuchPort => "DPDK port does not exist",
            Error::RxQueueId => "RX queue ID is too large",
            Error::TxQueueId => "TX queue ID is too large",
            Error::SocketId => "socket ID exceeds i32",
            Error::NulArgument => "argument contains NUL",
            Error::NoLcore => "not enough worker lcores in the EAL -l mask",
            Error::WorkerFailed => "forwarding worker failed",
            Error::MbufAllocation => "mbuf allocation failed",
            Error::Os(_) => "DPDK operation failed",
            Error::NoErrno => "DPDK operation failed without setting rte_errno",
        };
        fixed.to_owned()
    }
}

/// Errors of the operating system keep their number; packets in too many pieces are bad data; what
/// the process ran out of, or could not find out, is neither; and everything else is bad input.
pub proof fn kinds_of_errors(error: Error)
    ensures
        ({
            let pieces = error is MultiSegmentVlanPacket || error is MultiSegmentTunnelFrame || error
                is MultiSegmentLanPacket;
            let trouble = error is Headroom || error is Tailroom || error is NoErrno || error
                is WorkerFailed || error is MbufAllocation;
            &&& error matches Error::Os(code) ==> error.kind_spec() == ErrorKind::Os(code)
            &&& pieces ==> error.kind_spec() == ErrorKind::InvalidData
            &&& trouble ==> error.kind_spec() == ErrorKind::Other
            &&& !(error is Os) && !pieces && !trouble ==> error.kind_spec()
                == ErrorKind::InvalidInput
        }),
{
}

/// The messages that tell numbers tell them in decimal, from which they can be read back.
pub proof fn messages_tell_numbers(vlan: u16, workers: u16, lcores: u32)
    ensures
        exists|number: Seq<char>|
            text::number_spec(number, 10, 65_535) == Some(vlan as int) && #[trigger] (
            "duplicate tunnel VLAN ID "@ + number) == Error::DuplicateVlan(vlan).message_spec(),
        exists|running: Seq<char>, needed: Seq<char>, found: Seq<char>|
            {
                &&& text::number_spec(running, 10, 65_535) == Some(workers as int)
                &&& text::number_spec(needed, 10, 65_536) == Some(workers + 1)
                &&& text::number_spec(found, 10, 0xffff_ffff) == Some(lcores as int)
                &&& #[trigger] few_lcores(running, needed, found) == (Error::FewLcores {
                    workers,
                    lcores,
                }).message_spec()
            },
{
    let number = text::decimal_spec(vlan as int);
    let running = text::decimal_spec(workers as int);
    let needed = text::decimal_spec(workers + 1);
    let found = text::decimal_spec(lcores as int);
    text::decimal_reads_back(vlan as int, 65_535);
    text::decimal_reads_back(workers as int, 65_535);
    text::decimal_reads_back(workers + 1, 65_536);
    text::decimal_reads_back(lcores as int, 0xffff_ffff);
    assert("duplicate tunnel VLAN ID "@ + number == Error::DuplicateVlan(vlan).message_spec());
    assert(few_lcores(running, needed, found) == (Error::FewLcores {
        workers,
        lcores,
    }).message_spec());
}

/// The message that there are too few lcores, with its numbers.
pub open spec fn few_lcores(
    running: Seq<char>,
    needed: Seq<char>,
    found: Seq<char>,
) -> Seq<char> {
    "--workers "@ + running + " requires "@ + needed + " lcores in the EAL -l mask, but only "@
        + found + " are configured"@
}

/// The words for what can go wrong with a packet or with its tag.
pub proof fn words_for_packets()
    ensures
        Error::MultiSegmentVlanPacket.message_spec() == "multi-segment VLAN packet"@,
        Error::MultiSegmentTunnelFrame.message_spec() == "multi-segment tunnel frame"@,
        Error::MultiSegmentLanPacket.message_spec() == "multi-segment LAN packet"@,
        Error::NoVlanTag.message_spec() == "LAN frame has no VLAN tag"@,
        Error::ShortFrame.message_spec() == "tunnel frame is too short for a VLAN tag"@,
        Error::PayloadLimit.message_spec() == "EtherIP payload exceeds the IPv6 payload limit"@,
        Error::MtuTooSmall.message_spec() == "MTU too small"@,
        Error::Unfragmentable.message_spec()
            == "EtherIP frame cannot be fragmented for this MTU"@,
        Error::PacketLength.message_spec() == "packet length exceeds 65535"@,
        Error::Headroom.message_spec() == "mbuf has insufficient headroom"@,
        Error::Tailroom.message_spec() == "mbuf has insufficient tailroom"@,
        Error::Adjustment.message_spec() == "invalid mbuf adjustment"@,
        Error::TxBurst.message_spec() == "TX burst exceeds 65535 packets"@,
        Error::RxBurst.message_spec() == "RX burst must be a non-zero multiple of 8"@,
        Error::MbufAllocation.message_spec() == "mbuf allocation failed"@,
{
}

/// The words for what can go wrong with the options, the ports and the workers.
pub proof fn words_for_the_setup(code: i32)
    ensures
        Error::RemoteIpv6Missing.message_spec() == "--remote-ipv6 is required without --tunnel"@,
        Error::NextHopMacMissing.message_spec() == "--next-hop-mac is required without --tunnel"@,
        Error::NoSuchPort.message_spec() == "DPDK port does not exist"@,
        Error::RxQueueId.message_spec() == "RX queue ID is too large"@,
        Error::TxQueueId.message_spec() == "TX queue ID is too large"@,
        Error::SocketId.message_spec() == "socket ID exceeds i32"@,
        Error::NulArgument.message_spec() == "argument contains NUL"@,
        Error::NoLcore.message_spec() == "not enough worker lcores in the EAL -l mask"@,
        Error::WorkerFailed.message_spec() == "forwarding worker failed"@,
        Error::Os(code).message_spec() == "DPDK operation failed"@,
        Error::NoErrno.message_spec() == "DPDK operation failed without setting rte_errno"@,
{
}

} // verus!
