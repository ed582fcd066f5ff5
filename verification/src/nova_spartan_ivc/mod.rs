//! IVC on Nova with transparent Spartan compression: the SHA-256 chain and the
//! append-only Merkle tree.

pub mod append_circuit;
pub mod ivc;
pub mod merkle;
pub mod merkle_bench;
pub mod merkle_run;

pub use crate::chain::sha256_chain_native;
pub use crate::nova_spartan_ivc::ivc::{byte_of, run_ivc, NovaCurve, NovaIvcOutput, NovaRun,
    Sha256ChainCircuit};
