//! A typing-speed test engine: target passages, the keystroke-driven input
//! model, the per-word diff, live statistics, the test state machine and the
//! greedy line layout. Everything here is plain data in, plain data out; the
//! terminal, the clock and the event source live with the caller.

pub mod words;
pub mod differ;
pub mod layout;
pub mod input;
pub mod passage;
pub mod stats;
pub mod session;
