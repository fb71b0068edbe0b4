//! EtherIP (RFC 3378) bridging of Ethernet frames over IPv6.

pub mod address;
pub mod bridge;
pub mod bytes;
pub mod clock;
pub mod config;
pub mod dpdk;
pub mod error;
pub mod etherip;
pub mod laws;
pub mod linkage;
pub mod mac_table;
pub mod ndp;
pub mod port;
pub mod protocol;
pub mod reassembly;
pub mod text;
pub mod traffic;
pub mod wire;
pub mod workers;
