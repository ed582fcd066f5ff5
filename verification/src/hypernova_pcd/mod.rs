//! Proof-carrying data over an n-ary SHA-256 tree.

pub mod arity_comparison;
pub mod batch;
pub mod batch_report;
pub mod batch_run;
pub mod bench_args;
pub mod circuit;
pub mod construction;
pub mod identical;
pub mod lcg;
pub mod pcd;
pub mod report;
pub mod retry;
pub mod tree;
pub mod update;
pub mod update_report;

pub use arity_comparison::print_arity_comparison;
pub use batch_report::{print_batch_comparison, print_batch_report};
pub use batch_run::{run_batch_update, run_batch_update2, BatchLevelTiming, BatchUpdateOptions,
    BatchUpdateReport};
pub use circuit::{bytes_to_state, state_to_bytes, ExtDigests, Sha256MergeFCircuit};
pub use construction::PcdNodeTiming;
pub use identical::{build_identical_tree, IdenticalTree};
pub use pcd::{run_pcd, run_pcd2, PcdOptions, PcdReport};
pub use report::print_report;
pub use tree::{make_blocks, merkle_root_native, merkle_root_native_bucketed};
pub use update::{run_update, run_update2, UpdateOptions, UpdatePathTiming, UpdateReport};
pub use update_report::{print_update_comparison, print_update_report};
