//! Deterministic simulation of a replicated log cluster.
//!
//! A run is a pure function of one 64-bit seed, its parameters and what the replicas
//! answer: every random decision comes from one of the streams of
//! [`rng::SeedStreams`], and virtual time moves only when [`scheduler::Scheduler`] pops
//! an event. [`course`] states this of whole runs.

pub mod alike;
pub mod artifact;
pub mod checker;
pub mod client;
pub mod clock;
pub mod cluster;
pub mod codec;
pub mod course;
pub mod dispatch;
pub mod drive;
pub mod firing;
pub mod groups;
pub mod history;
pub mod keyed;
pub mod ledger;
pub mod model;
pub mod network;
pub mod output;
pub mod promises;
pub mod report_promises;
pub mod reproduce;
pub mod rng;
pub mod runtime;
pub mod scenario;
pub mod scheduler;
pub mod sorted;
pub mod storage;
pub mod strategy;
pub mod text;
pub mod timekeeping;
pub mod timeline;
pub mod topology;
pub mod verdict;
pub mod workload;

