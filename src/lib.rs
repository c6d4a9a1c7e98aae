//! Decision core of two derivative-free optimizers: a population search with
//! stagnation restarts (ANSR) and a per-axis pattern search (zero-gradient).
//!
//! The searches never touch coordinates or objective values directly. They
//! compare residuals on an integer order scale and drive a host, which owns
//! the positions in the unit cube, the seeded random generator and the
//! objective. Every decision is made here; the host only carries it out.
pub mod ansr;
pub mod early_stop;
pub mod lanes;
pub mod logs;
pub mod residual;
pub mod runner;
pub mod zero_gradient;

pub use ansr::{ansr_search, epoch_count, Population, Swarm, SwarmOutcome};
pub use early_stop::StopRule;
pub use lanes::lane_order;
pub use logs::{AxisLog, SwarmLog};
pub use residual::{Residual, INFINITE_LEVEL};
pub use runner::evaluations_to_threshold;
pub use zero_gradient::{
    zero_gradient, Direction, PatternHost, PatternOutcome, PatternState, Phase,
};
