//! The Line Reversal Control Protocol: sessions with reliable, ordered byte
//! streams over datagrams that may be lost, repeated and reordered.

pub mod chunks;
pub mod codec_laws;
pub mod listener;
pub mod listener_laws;
pub mod protocol;
pub mod session;
pub mod session_laws;
pub mod stream;
pub mod text;

pub use listener::{LrcpListener, LrcpStreamPair};
pub use session::RETRANSMIT_MILLIS;
pub use stream::LrcpStream;
