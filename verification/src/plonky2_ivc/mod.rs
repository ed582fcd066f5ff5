//! The SHA-256 chain by cyclic recursion over the Goldilocks field.

pub mod cyclic;
pub mod gates;
pub mod ivc;
pub mod packing;
pub mod rows;
pub mod sha256;
pub mod step;
pub mod witness;
pub mod words;

pub use cyclic::build_cyclic_circuit;
pub use ivc::{run_ivc, NoSteps, Plonky2IvcOutput, Plonky2Run};
pub use step::build_step_circuit;
