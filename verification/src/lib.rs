//! Shared rules of a small networked arena: the wire channels and messages that
//! the server and its clients exchange, the roster of connected clients, and the
//! decisions each side takes when clients come and go.

pub mod protocol;
pub mod roster;
pub mod session;
