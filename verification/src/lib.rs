//! A user-space TCP transport core: the per-connection state machine,
//! sequence arithmetic in 32-bit modular space, the segment codec, and
//! the connection manager that multiplexes many connections over one raw
//! IPv4 frame channel. The surrounding process supplies the frame channel
//! and the clock; every decision the stack makes lives here.

pub mod conn;
pub mod laws;
pub mod manager;
pub mod segment;
pub mod seqnum;
