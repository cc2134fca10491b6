//! Serial dongle communication core.
//!
//! The library models the request/response protocol a desktop application
//! speaks with a hardware dongle over a serial link: the wire codec for
//! JSON-framed messages, the polling worker that multiplexes requests
//! against a single in-flight slot, and the session lifecycle controller.
//! All port, thread and channel plumbing lives outside the library; the
//! logic here is pure and fully specified.

pub mod codec;
pub mod dispatch;
pub mod laws;
pub mod lifecycle;
pub mod messages;
pub mod worker;

pub use messages::{DongleRequest, DongleResponse, KeyDotErrors, NewCard};
