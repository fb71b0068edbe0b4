//! Opening a port: which DPDK calls are made, in what order, and what comes of their answers.

use crate::dpdk::check;
use crate::error::Error;
use vstd::prelude::*;

verus! {

/// How a port is set up.
#[derive(Clone, Copy, Debug)]
pub struct PortConfig {
    pub rx_queue: u16,
    pub tx_queue: u16,
    pub rx_descriptors: u16,
    pub tx_descriptors: u16,
    pub socket_id: Option<u32>,
    pub promiscuous: bool,
}

impl Default for PortConfig {
    fn default() -> (config: Self)
        ensures
            config == (PortConfig {
                rx_queue: 0,
                tx_queue: 0,
                rx_descriptors: 1024,
                tx_descriptors: 1024,
                socket_id: None,
                promiscuous: true,
            }),
    {
        PortConfig {
            rx_queue: 0,
            tx_queue: 0,
            rx_descriptors: 1024,
            tx_descriptors: 1024,
            socket_id: None,
            promiscuous: true,
        }
    }
}

/// A DPDK call that has to be made next.
#[derive(Clone, Copy, Debug, PartialEq, Eq, Structural)]
pub enum Call {
    /// `rte_eth_dev_configure` with these numbers of queues.
    Configure { rx_queues: u16, tx_queues: u16 },
    /// `rte_eth_dev_socket_id`.
    Socket,
    /// `rte_eth_rx_queue_setup`.
    RxQueue { queue: u16, descriptors: u16, socket: u32 },
    /// `rte_eth_tx_queue_setup`.
    TxQueue { queue: u16, descriptors: u16, socket: u32 },
    /// `rte_eth_dev_start`.
    Start,
    /// `rte_eth_promiscuous_enable`.
    Promiscuous,
}

/// A call failed. Once a port is configured it has to be closed again.
#[derive(Clone, Copy, Debug, PartialEq, Eq, Structural)]
pub struct Failure {
    pub error: Error,
    pub close: bool,
}

/// The calls that look for a socket.
pub open spec fn socket_calls(config: PortConfig) -> Seq<Call> {
    if config.socket_id is None {
        seq![Call::Socket]
    } else {
        Seq::empty()
    }
}

/// The calls that set up the receive queues.
pub open spec fn rx_calls(config: PortConfig, socket: u32) -> Seq<Call> {
    Seq::new(
        (config.rx_queue + 1) as nat,
        |i: int|
            Call::RxQueue { queue: i as u16, descriptors: config.rx_descriptors, socket },
    )
}

/// The calls that set up the transmit queues.
pub open spec fn tx_calls(config: PortConfig, socket: u32) -> Seq<Call> {
    Seq::new(
        (config.tx_queue + 1) as nat,
        |i: int|
            Call::TxQueue { queue: i as u16, descriptors: config.tx_descriptors, socket },
    )
}

/// The calls that make a port that is set up run.
pub open spec fn start_calls(config: PortConfig) -> Seq<Call> {
    if config.promiscuous {
        seq![Call::Start, Call::Promiscuous]
    } else {
        seq![Call::Start]
    }
}

/// Every call that opens a port whose queues are on `socket`.
pub open spec fn all_calls(config: PortConfig, socket: u32) -> Seq<Call> {
    seq![
        Call::Configure {
            rx_queues: (config.rx_queue + 1) as u16,
            tx_queues: (config.tx_queue + 1) as u16,
        },
    ] + socket_calls(config) + rx_calls(config, socket) + tx_calls(config, socket)
        + start_calls(config)
}

/// How far the opening of a port has come.
pub struct SetupModel {
    pub config: PortConfig,
    pub socket: u32,
    pub done: int,
}

impl SetupModel {
    pub open spec fn wf(self) -> bool {
        &&& self.config.rx_queue < u16::MAX
        &&& self.config.tx_queue < u16::MAX
        &&& 0 <= self.done <= all_calls(self.config, self.socket).len()
        &&& self.config.socket_id matches Some(socket) ==> self.socket == socket
    }

    /// The call to make next; there is none once the port is open.
    pub open spec fn next(self) -> Option<Call> {
        let calls = all_calls(self.config, self.socket);
        if 0 <= self.done < calls.len() {
            Some(calls[self.done])
        } else {
            None
        }
    }

    /// What an answer to the next call comes to.
    pub open spec fn answered(self, code: i32) -> Result<SetupModel, Failure> {
        if code < 0 {
            Err(Failure { error: Error::Os((-code) as i32), close: self.done > 0 })
        } else {
            Ok(
                SetupModel {
                    config: self.config,
                    socket: if self.next() == Some(Call::Socket) {
                        code as u32
                    } else {
                        self.socket
                    },
                    done: self.done + 1,
                },
            )
        }
    }
}

/// A port that is being opened.
#[derive(Clone, Copy, Debug)]
pub struct Setup {
    config: PortConfig,
    socket: u32,
    done: u32,
}

impl View for Setup {
    type V = SetupModel;

    closed spec fn view(&self) -> SetupModel {
        SetupModel { config: self.config, socket: self.socket, done: self.done as int }
    }
}

/// Why a port cannot be opened, whatever DPDK says.
pub open spec fn refused(id: u16, port_count: u16, config: PortConfig) -> Option<Error> {
    if id >= port_count {
        Some(Error::NoSuchPort)
    } else if config.rx_queue == u16::MAX {
        Some(Error::RxQueueId)
    } else if config.tx_queue == u16::MAX {
        Some(Error::TxQueueId)
    } else {
        None
    }
}

impl Setup {
    /// Starts to open port `id` of `port_count` that there are.
    pub fn begin(id: u16, port_count: u16, config: PortConfig) -> (setup: Result<Setup, Error>)
        ensures
            match setup {
                Ok(setup) => {
                    &&& refused(id, port_count, config) is None
                    &&& setup@.wf()
                    &&& setup@.config == config
                    &&& setup@.done == 0
                },
                Err(error) => refused(id, port_count, config) == Some(error),
            },
    {
        if id >= port_count {
            return Err(Error::NoSuchPort);
        }
        if config.rx_queue == u16::MAX {
            return Err(Error::RxQueueId);
        }
        if config.tx_queue == u16::MAX {
            return Err(Error::TxQueueId);
        }
        let socket: u32 = match config.socket_id {
            Some(socket) => socket,
            None => 0,
        };
        Ok(Setup { config, socket, done: 0 })
    }

    /// The call to make next.
    pub fn next(&self) -> (call: Option<Call>)
        requires
            self@.wf(),
        ensures
            call == self@.next(),
    {
        let config = self.config;
        let rx_queues: u16 = config.rx_queue + 1;
        let tx_queues: u16 = config.tx_queue + 1;
        if self.done == 0 {
            return Some(Call::Configure { rx_queues, tx_queues });
        }
        let first: u32 = if config.socket_id.is_none() {
            2
        } else {
            1
        };
        if self.done < first {
            return Some(Call::Socket);
        }
        let left: u32 = self.done - first;
        if left < rx_queues as u32 {
            return Some(
                Call::RxQueue {
                    queue: left as u16,
                    descriptors: config.rx_descriptors,
                    socket: self.socket,
                },
            );
        }
        let left: u32 = left - rx_queues as u32;
        if left < tx_queues as u32 {
            return Some(
                Call::TxQueue {
                    queue: left as u16,
                    descriptors: config.tx_descriptors,
                    socket: self.socket,
                },
            );
        }
        let left: u32 = left - tx_queues as u32;
        if left == 0 {
            Some(Call::Start)
        } else if left == 1 && config.promiscuous {
            Some(Call::Promiscuous)
        } else {
            None
        }
    }

    /// Takes the answer to the call that [`Setup::next`] gives.
    pub fn answer(&mut self, code: i32) -> (taken: Result<(), Failure>)
        requires
            old(self)@.wf(),
            old(self)@.next() is Some,
            code > i32::MIN,
        ensures
            final(self)@.wf(),
            match taken {
                Ok(_) => old(self)@.answered(code) == Ok::<SetupModel, Failure>(final(self)@),
                Err(failure) => {
                    &&& old(self)@.answered(code) == Err::<SetupModel, Failure>(failure)
                    &&& final(self)@ == old(self)@
                },
            },
    {
        let call = self.next();
        let value: i32 = match check(code) {
            Ok(value) => value,
            Err(error) => {
                return Err(Failure { error, close: self.done > 0 });
            },
        };
        proof {
            socket_changes_no_count(self@.config, self@.socket, value as u32);
        }
        if call == Some(Call::Socket) {
            self.socket = value as u32;
        }
        self.done = self.done + 1;
        Ok(())
    }
}

proof fn socket_changes_no_count(config: PortConfig, left: u32, right: u32)
    ensures
        all_calls(config, left).len() == all_calls(config, right).len(),
        all_calls(config, left).len() <= 2 + 0x1_0000 + 0x1_0000 + 2,
{
}

/// The calls that are made while they are answered with `codes`, and what comes of them.
pub open spec fn opening(setup: SetupModel, codes: Seq<i32>) -> (
    Seq<Call>,
    Result<SetupModel, Failure>,
)
    decreases codes.len(),
{
    if codes.len() == 0 {
        (Seq::empty(), Ok(setup))
    } else {
        let (calls, so_far) = opening(setup, codes.drop_last());
        match so_far {
            Ok(setup) => match setup.next() {
                Some(call) => (calls.push(call), setup.answered(codes.last())),
                None => (calls, so_far),
            },
            Err(_) => (calls, so_far),
        }
    }
}

proof fn lemma_socket_call(setup: SetupModel)
    requires
        setup.wf(),
        setup.next() == Some(Call::Socket),
    ensures
        setup.done == 1,
        setup.config.socket_id is None,
{
    let calls = all_calls(setup.config, setup.socket);
    let first = 1 + socket_calls(setup.config).len();
    let second = first + setup.config.rx_queue + 1;
    let third = second + setup.config.tx_queue + 1;
    if first <= setup.done < second {
        assert(calls[setup.done] is RxQueue);
    } else if second <= setup.done < third {
        assert(calls[setup.done] is TxQueue);
    } else if third <= setup.done {
        assert(calls[setup.done] is Start || calls[setup.done] is Promiscuous);
    }
}

/// While every call succeeds, the calls are those of [`all_calls`] in their order, on the socket
/// that was asked for or that DPDK named; when all have been made the port is open, and not
/// before.
pub proof fn port_opens(setup: SetupModel, codes: Seq<i32>)
    requires
        setup.wf(),
        setup.done == 0,
        codes.len() <= all_calls(setup.config, setup.socket).len(),
        forall|i: int| 0 <= i < codes.len() ==> #[trigger] codes[i] >= 0,
    ensures
        opening(setup, codes) matches (calls, Ok(after)) && {
            &&& after.wf()
            &&& after.config == setup.config
            &&& after.done == codes.len()
            &&& calls == all_calls(setup.config, after.socket).take(codes.len() as int)
            &&& after.next() is None <==> codes.len() == all_calls(
                setup.config,
                setup.socket,
            ).len()
            &&& setup.config.socket_id is None && codes.len() >= 2 ==> after.socket == codes[1]
        },
    decreases codes.len(),
{
    if codes.len() == 0 {
        assert(opening(setup, codes).0 =~= all_calls(setup.config, setup.socket).take(0));
    } else {
        let front = codes.drop_last();
        assert forall|i: int| 0 <= i < front.len() implies #[trigger] front[i] >= 0 by {
            assert(front[i] == codes[i]);
        }
        port_opens(setup, front);
        let (calls, so_far) = opening(setup, front);
        let before = so_far->Ok_0;
        let after = before.answered(codes.last())->Ok_0;
        socket_changes_no_count(setup.config, setup.socket, before.socket);
        socket_changes_no_count(setup.config, before.socket, after.socket);
        if before.next() == Some(Call::Socket) {
            lemma_socket_call(before);
        }
        assert(codes[codes.len() - 1] >= 0);
        let made = all_calls(setup.config, after.socket);
        assert(calls.push(before.next()->0) =~= made.take(codes.len() as int));
        if setup.config.socket_id is None && codes.len() == 2 {
            assert(before.next() == Some(Call::Socket));
        }
    }
}

/// A call that fails ends the opening with its error number: nothing is called after it, and the
/// port is closed again unless the call was the one that configures it.
pub proof fn port_fails(setup: SetupModel, codes: Seq<i32>, code: i32)
    requires
        setup.wf(),
        setup.done == 0,
        codes.len() < all_calls(setup.config, setup.socket).len(),
        forall|i: int| 0 <= i < codes.len() ==> #[trigger] codes[i] >= 0,
        i32::MIN < code < 0,
    ensures
        ({
            let (calls, result) = opening(setup, codes.push(code));
            &&& calls.len() == codes.len() + 1
            &&& result == Err::<SetupModel, Failure>(
                Failure { error: Error::Os((-code) as i32), close: codes.len() > 0 },
            )
        }),
{
    port_opens(setup, codes);
    assert(codes.push(code).drop_last() =~= codes);
}

/// A port is opened in order: it is configured for all queues up to those that are asked for, its
/// socket is looked for if none is given, the receive queues are set up from the first to the last
/// and then the transmit queues, and it is started and, if that is asked for, made promiscuous.
pub proof fn calls_in_order(config: PortConfig, socket: u32)
    requires
        config.rx_queue < 65_535,
        config.tx_queue < 65_535,
    ensures
        ({
            let calls = all_calls(config, socket);
            let first: int = if config.socket_id is None {
                2
            } else {
                1
            };
            let second = first + config.rx_queue + 1;
            let third = second + config.tx_queue + 1;
            &&& calls[0] == Call::Configure {
                rx_queues: (config.rx_queue + 1) as u16,
                tx_queues: (config.tx_queue + 1) as u16,
            }
            &&& config.socket_id is None ==> calls[1] == Call::Socket
            &&& forall|queue: u16|
                queue <= config.rx_queue ==> calls[first + queue] == (#[trigger] rx_call(
                    config,
                    queue,
                    socket,
                ))
            &&& forall|queue: u16|
                queue <= config.tx_queue ==> calls[second + queue] == (#[trigger] tx_call(
                    config,
                    queue,
                    socket,
                ))
            &&& calls[third] == Call::Start
            &&& config.promiscuous ==> calls.len() == third + 2 && calls[third + 1]
                == Call::Promiscuous
            &&& !config.promiscuous ==> calls.len() == third + 1
        }),
{
}

/// The call that sets up a receive queue.
pub open spec fn rx_call(config: PortConfig, queue: u16, socket: u32) -> Call {
    Call::RxQueue { queue, descriptors: config.rx_descriptors, socket }
}

/// The call that sets up a transmit queue.
pub open spec fn tx_call(config: PortConfig, queue: u16, socket: u32) -> Call {
    Call::TxQueue { queue, descriptors: config.tx_descriptors, socket }
}

/// A port is refused exactly if there is none of that number, or a queue has the number 65535.
pub proof fn ports_refused(id: u16, port_count: u16, config: PortConfig)
    ensures
        refused(id, port_count, config) is None <==> id < port_count && config.rx_queue < 65_535
            && config.tx_queue < 65_535,
        refused(id, port_count, config) == Some(Error::NoSuchPort) <==> id >= port_count,
        refused(id, port_count, config) == Some(Error::RxQueueId) <==> id < port_count
            && config.rx_queue == 65_535,
        refused(id, port_count, config) == Some(Error::TxQueueId) <==> id < port_count
            && config.rx_queue < 65_535 && config.tx_queue == 65_535,
{
}

} // verus!
