//! The shared runtime core: one heap, one scheduler, one way to call across
//! languages.

pub mod answers;
pub mod bridge;
pub mod bundle;
pub mod cell;
pub mod data;
pub mod describe;
pub mod diag;
pub mod error;
pub mod function;
pub mod future;
pub mod hash;
pub mod heap;
pub mod laws;
pub mod link;
pub mod namespace;
pub mod native;
pub mod number;
pub mod object;
pub mod platform;
pub mod protocol;
pub mod registry;
pub mod report;
pub mod sched;
pub mod send;
pub mod symbol;
pub mod text;
pub mod value;
pub mod world;
