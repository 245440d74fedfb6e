//! The call bridge: how a value in one language calls into another.
//!
//! Every crossing is a protected call. No unwinder crosses a boundary: an
//! error leaving a callee's segment is a pending error value on the current
//! task plus one trace frame, and the receiving language re-raises it
//! natively. A value returning to the language that raised it is unwrapped to
//! the original object, so identity survives a round trip.

pub mod crossing;
pub mod laws;
pub mod outcomes;
pub mod pending;
pub mod plan;
pub mod runs;
pub mod settle;
pub mod typed;
