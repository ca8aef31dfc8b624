pub mod identifier;
pub mod lamport_clock;
pub mod vclock;
pub mod wire;

pub use crate::identifier::Identifier;
pub use crate::lamport_clock::{LamportClock, LamportTime};
pub use crate::vclock::{ClockOrdering, DecodeError, VClock, VClockTime, Vector};
