//! A QUIC load balancer: the server pool, its balancing algorithms, sticky
//! sessions, health bookkeeping and packet filtering.

pub mod address;
pub mod backend;

pub mod options;
mod outside;

pub use options::Opt;

pub mod frontend;
