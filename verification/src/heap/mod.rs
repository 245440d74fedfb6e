//! The Immix heap: blocks of lines, a side table of allocations, a
//! conservative marker and a block-level sweep.

pub mod api;
pub mod block;
pub mod books;
pub mod claims;
pub mod collect;
pub mod cycle;
pub mod deferred;
pub mod dump;
pub mod grant;
pub mod handback;
pub mod handles;
pub mod harvest;
pub mod hooks;
pub mod host;
pub mod immix;
pub mod large;
pub mod laws;
pub mod layout;
pub mod limits;
pub mod lock;
pub mod major;
pub mod mark;
pub mod memory;
pub mod mutators;
pub mod place;
pub mod queue;
pub mod reclaim;
pub mod regions;
pub mod roots;
pub mod scanning;
pub mod sizing;
pub mod space;
pub mod stops;
pub mod surface;
pub mod survival;
pub mod sweep;
pub mod swept;
pub mod tables;
pub mod threads;
pub mod tlab;
pub mod trace;
pub mod tracer;
pub mod types;
