//! Sequences: literal runs, each followed by a match in what was already
//! decoded.

pub mod choice;
pub mod choice_laws;
pub mod codes;
pub mod cost;
pub mod decode;
pub mod encode;
pub mod estimate;
pub mod execute;
pub mod execute_laws;
pub mod format_laws;
pub mod fused;
pub mod laws;
pub mod plan_laws;
pub mod repeat;
pub mod section;
pub mod stats;
pub mod stream;
pub mod tables;
pub mod write;
