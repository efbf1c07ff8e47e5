//! Cost reporting for Soroban contract functions: the resource limits of the
//! network, the records that a test run emits, and the terminal and HTML
//! reports built from them.

pub mod limits;
pub mod text;
pub mod usage;
pub mod ranking;
pub mod paint;
pub mod report;
pub mod labels;
pub mod html;
pub mod protocol;
pub mod harness;
