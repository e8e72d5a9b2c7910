//! A reliable, ordered byte stream over unreliable datagrams (LRCP), the
//! line-reversal service that rides on it, and the rules of a few smaller
//! network services.
//!
//! Everything here is a plain state machine or a function of its arguments:
//! datagrams, commands and clock readings go in, datagrams and delivered
//! bytes come out. Sockets, timers and tasks belong to the caller.
//!
//! - [`lrcp`]: the codec, the session, the listener and the stream.
//! - [`line_reversal`]: the service that answers each line reversed.
//! - [`protohackers`]: prices over time, chat names, a key-value store.
//! - [`maelstrom`]: ids for the messages of a node.
//! - [`acstor`]: a planner and the workload it drives.

pub mod acstor;
pub mod error;
pub mod line_reversal;
pub mod lrcp;
pub mod maelstrom;
pub mod protohackers;
