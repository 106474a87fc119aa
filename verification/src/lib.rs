//! Difficulty management of a Stratum V1 to V2 translator, and the
//! `CommitMiningJob` messages of the job-negotiation protocol.
pub mod byte_order;
pub mod error;
pub mod uint256;
pub mod codec;
pub mod commit_mining_job;
pub mod diff_management;
