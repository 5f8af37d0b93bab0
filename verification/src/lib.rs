//! Workloads from a series of CPU performance experiments, with their
//! functional behaviour verified.
pub mod prng;
pub mod shuffle;
pub mod seq_facts;
pub mod std_calls;
pub mod pointer_chasing;
pub mod branch_prediction;
pub mod reasonable_benchmarking;
pub mod aos_vs_soa;
pub mod false_sharing;
