//! Incremental verifiable computation over SHA-256: chains, append-only and
//! n-ary Merkle trees, the step circuits that fold them, and the runs that
//! measure the folding.

pub mod args;
pub mod bench_common;
pub mod bits;
pub mod chain;
pub mod comparative;
pub mod field;
pub mod float;
pub mod format;
pub mod hash;
pub mod hypernova_pcd;
pub mod ivc_bench;
pub mod ivc_run;
pub mod nova_spartan_ivc;
pub mod plonky2_ivc;
pub mod r1cs;
pub mod ranking;
pub mod sha256_step;
pub mod solver;
pub mod sonobe_ivc;
pub mod text;
