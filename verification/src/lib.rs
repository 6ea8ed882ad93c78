pub mod api;
pub mod cluster;
pub mod copies;
pub mod decision;
pub mod engine;
pub mod error;
pub mod events;
pub mod groups;
pub mod holders;
pub mod inference;
pub mod job;
pub mod lifecycle;
pub mod metrics;
pub mod mig;
pub mod model;
pub mod preemption;
pub mod resource;
pub mod rl;
pub mod scheduler;
pub mod seqs;
pub mod serving;
pub mod shim;
pub mod shadow;
pub mod snapshot;
pub mod sort;
pub mod strmap;
pub mod text;
pub mod tickets;
pub mod topology;
