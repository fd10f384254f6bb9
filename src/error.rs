use vstd::prelude::*;

verus! {

/// The ways in which an operation on the shared connection can fail.
#[derive(Debug, Clone, PartialEq, Eq)]
pub enum SerialError {
    /// A connection is already installed; it must be removed first.
    AlreadyConnected,
    /// No connection is installed.
    NotConnected,
    /// The driver could not open or configure the device.
    ConnectionRefused(String),
    /// Every write attempt failed; carries the last driver error.
    WriteFailed(String),
    /// The driver failed while polling or reading.
    ReadFailed(String),
    /// No bytes arrived before the read deadline.
    TimedOut,
    /// The guard around the shared slot was poisoned.
    LockFailure(String),
    /// The driver could not enumerate devices.
    EnumerationFailed(String),
}

} // verus!
