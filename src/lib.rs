//! Shared management of a single serial-device connection.
//!
//! The library holds the decisions: which port parameters exist and how a
//! descriptor is written as text, when a connection may be installed or
//! removed, when a failed write is retried and when a polling read gives up.
//! The device itself is driven by the caller, who hands each outcome back to
//! the policy objects defined here.

pub mod codec;
pub mod error;
pub mod poll;
pub mod retry;
pub mod serial_types;
pub mod slot;

pub use error::SerialError;
pub use poll::{Probe, ReadPoll, ReadStep, POLL_INTERVAL_MS};
pub use retry::{WriteRetry, WriteStep};
pub use serial_types::{DataBits, FlowControl, Parity, SerialPortInfo, StopBits};
pub use slot::ConnectionSlot;
