//! DecLimiter: the decision logic of a per-process network bandwidth limiter.
//!
//! The library holds what the limiter decides and computes: the datarate
//! grammar, the flow table that maps connections to processes, the token
//! buckets that pace traffic, the per-packet verdicts of the limiter and the
//! monitor, the traffic counters and the limit model behind the user interface.
//! Talking to the packet driver, the operating system tables and the screen is
//! left to the program around it.

pub mod adapter;
pub mod cli;
pub mod clock;
pub mod config;
pub mod double;
pub mod error;
pub mod groups;
pub mod icon;
pub mod limiter;
pub mod network;
pub mod order;
pub mod packets;
pub mod publisher;
pub mod rules;
pub mod settings;
pub mod sorting;
pub mod table;
pub mod text;
pub mod traffic;
pub mod units;
pub mod util;
