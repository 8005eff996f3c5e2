//! Host-side models of the RV1106 hardware blocks and the tooling around them.

pub mod text;
pub mod modbus;
pub mod membus;
pub mod cru;
pub mod hpmcu;
pub mod npu;
pub mod rga;
pub mod config_lint;
pub mod bridge;
