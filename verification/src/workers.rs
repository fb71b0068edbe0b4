//! What the options come to for the ports and the workers.

use crate::config::Config;
use crate::dpdk::MempoolConfig;
use crate::error::Error;
use crate::port::PortConfig;
use vstd::prelude::*;

verus! {

/// The pool for the socket that the options name.
pub open spec fn mempool_spec(config: Config) -> Result<MempoolConfig, Error> {
    if config.socket_id matches Some(id) && id > i32::MAX {
        Err(Error::SocketId)
    } else {
        Ok(
            MempoolConfig {
                packet_count: 8191,
                cache_size: 256,
                data_room_size: 2176,
                socket_id: match config.socket_id {
                    Some(id) => Some(id as i32),
                    None => None,
                },
            },
        )
    }
}

/// The layout of the packet buffers.
pub fn mempool_config(config: &Config) -> (pool: Result<MempoolConfig, Error>)
    ensures
        pool == mempool_spec(*config),
{
    let socket_id: Option<i32> = match config.socket_id {
        Some(id) => {
            if id > i32::MAX as u32 {
                return Err(Error::SocketId);
            }
            Some(id as i32)
        },
        None => None,
    };
    let mut pool = MempoolConfig::default();
    pool.socket_id = socket_id;
    Ok(pool)
}

/// How both ports are set up: several workers have a queue each, one worker has the queue that
/// the options name.
pub open spec fn port_spec(config: Config) -> PortConfig {
    PortConfig {
        rx_queue: if config.workers > 1 {
            (config.workers - 1) as u16
        } else {
            config.rx_queue
        },
        tx_queue: if config.workers > 1 {
            (config.workers - 1) as u16
        } else {
            config.tx_queue
        },
        rx_descriptors: config.rx_descriptors,
        tx_descriptors: config.tx_descriptors,
        socket_id: config.socket_id,
        promiscuous: true,
    }
}

/// The set-up of both ports.
pub fn port_config(config: &Config) -> (port: PortConfig)
    ensures
        port == port_spec(*config),
{
    let several = config.workers > 1;
    PortConfig {
        rx_queue: if several {
            config.workers - 1
        } else {
            config.rx_queue
        },
        tx_queue: if several {
            config.workers - 1
        } else {
            config.tx_queue
        },
        rx_descriptors: config.rx_descriptors,
        tx_descriptors: config.tx_descriptors,
        socket_id: config.socket_id,
        promiscuous: true,
    }
}

/// The receive queue and the transmit queue of a worker.
pub open spec fn queues_spec(config: Config, worker: u16) -> (u16, u16) {
    if config.workers > 1 {
        (worker, worker)
    } else {
        (config.rx_queue, config.tx_queue)
    }
}

/// The queues of a worker.
pub fn worker_queues(config: &Config, worker: u16) -> (queues: (u16, u16))
    ensures
        queues == queues_spec(*config, worker),
{
    if config.workers > 1 {
        (worker, worker)
    } else {
        (config.rx_queue, config.tx_queue)
    }
}

/// Whether there is an lcore for every worker beside the main one.
pub fn check_lcores(workers: u16, lcores: u32) -> (enough: Result<(), Error>)
    ensures
        enough == if lcores <= workers {
            Err(Error::FewLcores { workers, lcores })
        } else {
            Ok(())
        },
        enough is Ok <==> lcores >= workers + 1,
{
    if lcores <= workers as u32 {
        Err(Error::FewLcores { workers, lcores })
    } else {
        Ok(())
    }
}

/// The lcore that a worker gets, if one is left.
pub fn worker_lcore(next: Option<u32>) -> (lcore: Result<u32, Error>)
    ensures
        lcore == match next {
            Some(id) => Ok(id),
            None => Err(Error::NoLcore),
        },
{
    match next {
        Some(id) => Ok(id),
        None => Err(Error::NoLcore),
    }
}

/// What the exit code of the only worker says.
pub fn worker_result(code: i32) -> (result: Result<(), Error>)
    ensures
        result == if code == 0 {
            Ok(())
        } else {
            Err(Error::WorkerFailed)
        },
{
    if code == 0 {
        Ok(())
    } else {
        Err(Error::WorkerFailed)
    }
}

/// Every worker has queues that the ports have, and no two workers share one.
pub proof fn workers_have_queues_of_their_own(config: Config, worker: u16, other: u16)
    requires
        worker < config.workers,
        other < config.workers,
    ensures
        queues_spec(config, worker).0 <= port_spec(config).rx_queue,
        queues_spec(config, worker).1 <= port_spec(config).tx_queue,
        worker != other ==> queues_spec(config, worker).0 != queues_spec(config, other).0
            && queues_spec(config, worker).1 != queues_spec(config, other).1,
{
}

/// Several workers have the queues of their own number, and the ports have as many queues as there
/// are workers; one worker has the queues that the options name, and the ports have them.
pub proof fn queues_follow_the_workers(config: Config, worker: u16)
    ensures
        config.workers >= 2 ==> {
            &&& queues_spec(config, worker) == (worker, worker)
            &&& port_spec(config).rx_queue + 1 == config.workers
            &&& port_spec(config).tx_queue + 1 == config.workers
        },
        config.workers < 2 ==> {
            &&& queues_spec(config, worker).0 == config.rx_queue
            &&& queues_spec(config, worker).1 == config.tx_queue
            &&& port_spec(config).rx_queue == config.rx_queue
            &&& port_spec(config).tx_queue == config.tx_queue
        },
        port_spec(config).rx_descriptors == config.rx_descriptors,
        port_spec(config).tx_descriptors == config.tx_descriptors,
        port_spec(config).socket_id == config.socket_id,
        port_spec(config).promiscuous,
{
}

/// The pool is on the socket that the options name, if they name one that a signed number can hold.
pub proof fn pool_follows_the_options(config: Config)
    ensures
        match mempool_spec(config) {
            Ok(pool) => {
                &&& pool.packet_count == 8191
                &&& pool.cache_size == 256
                &&& pool.data_room_size == 2176
                &&& config.socket_id is None ==> pool.socket_id is None
                &&& config.socket_id matches Some(id) ==> id <= 0x7fff_ffff && pool.socket_id is Some
                    && pool.socket_id->0 == id
            },
            Err(error) => {
                &&& error == Error::SocketId
                &&& config.socket_id matches Some(id) && id > 0x7fff_ffff
            },
        },
{
}

} // verus!
