use vstd::prelude::*;
use crate::error::SerialError;

verus! {

/// What `connect` leaves in the slot and returns, given the slot's content and
/// the outcome of opening the device.
pub open spec fn connect_spec<H>(slot: Option<H>, opened: Result<H, String>) -> (
    Option<H>,
    Result<(), SerialError>,
) {
    match slot {
        Some(_) => (slot, Err(SerialError::AlreadyConnected)),
        None => match opened {
            Ok(h) => (Some(h), Ok(())),
            Err(msg) => (None, Err(SerialError::ConnectionRefused(msg))),
        },
    }
}

/// What `disconnect` leaves in the slot and returns.
pub open spec fn disconnect_spec<H>(slot: Option<H>) -> (Option<H>, Result<H, SerialError>) {
    match slot {
        Some(h) => (None, Ok(h)),
        None => (None, Err(SerialError::NotConnected)),
    }
}

/// The shared slot: no connection, or exactly one live connection `H`.
///
/// Occupancy changes only through `connect` (empty to occupied) and
/// `disconnect` (occupied to empty).
pub struct ConnectionSlot<H> {
    conn: Option<H>,
}

impl<H> View for ConnectionSlot<H> {
    type V = Option<H>;

    closed spec fn view(&self) -> Option<H> {
        self.conn
    }
}

impl<H> ConnectionSlot<H> {
    /// An empty slot.
    pub fn new() -> (r: Self)
        ensures
            r@ is None,
    {
        ConnectionSlot { conn: None }
    }

    pub fn is_connected(&self) -> (r: bool)
        ensures
            r == self@ is Some,
    {
        self.conn.is_some()
    }

    /// Whether a device may be opened now: fails with `AlreadyConnected` while
    /// a connection is installed, so that no second handle is ever opened.
    pub fn ensure_vacant(&self) -> (r: Result<(), SerialError>)
        ensures
            self@ is None ==> r == Ok::<(), SerialError>(()),
            self@ is Some ==> r == Err::<(), SerialError>(SerialError::AlreadyConnected),
    {
        match &self.conn {
            Some(_) => Err(SerialError::AlreadyConnected),
            None => Ok(()),
        }
    }

    /// Installs a freshly opened connection. An installed connection is never
    /// replaced; a driver failure leaves the slot empty.
    pub fn connect(&mut self, opened: Result<H, String>) -> (r: Result<(), SerialError>)
        ensures
            (final(self)@, r) == connect_spec(old(self)@, opened),
    {
        if self.conn.is_some() {
            return Err(SerialError::AlreadyConnected);
        }
        match opened {
            Ok(h) => {
                self.conn = Some(h);
                Ok(())
            },
            Err(msg) => Err(SerialError::ConnectionRefused(msg)),
        }
    }

    /// Removes the installed connection and hands it to the caller, who closes
    /// it. The slot is empty afterwards whatever the close reports.
    pub fn disconnect(&mut self) -> (r: Result<H, SerialError>)
        ensures
            (final(self)@, r) == disconnect_spec(old(self)@),
    {
        match self.conn.take() {
            Some(h) => Ok(h),
            None => Err(SerialError::NotConnected),
        }
    }

    /// Exclusive access to the installed connection, for a read or a write.
    /// Fails with `NotConnected` on an empty slot; occupancy never changes.
    pub fn connection(&mut self) -> (r: Result<&mut H, SerialError>)
        ensures
            old(self)@ is None ==> r == Err::<&mut H, SerialError>(SerialError::NotConnected)
                && final(self)@ is None,
            old(self)@ is Some ==> r is Ok && old(self)@ == Some(*r->Ok_0) && final(self)@ == Some(
                *final(r->Ok_0),
            ),
    {
        match &mut self.conn {
            Some(h) => Ok(h),
            None => Err(SerialError::NotConnected),
        }
    }
}

/// A second `connect` without a `disconnect` in between fails with
/// `AlreadyConnected` and leaves the first connection in place, whatever the
/// second open produced.
pub proof fn lemma_connect_twice<H>(slot: Option<H>, first: Result<H, String>, second: Result<H, String>)
    requires
        connect_spec(slot, first).1 is Ok,
    ensures
        connect_spec(connect_spec(slot, first).0, second) == (
            connect_spec(slot, first).0,
            Err::<(), SerialError>(SerialError::AlreadyConnected),
        ),
        connect_spec(slot, first).0 == Some(first->Ok_0),
{
}

/// `disconnect` on an empty slot fails with `NotConnected`; on an occupied
/// slot it succeeds, returns the connection and leaves the slot empty.
pub proof fn lemma_disconnect<H>(slot: Option<H>)
    ensures
        slot is None ==> disconnect_spec(slot) == (None::<H>, Err::<H, SerialError>(SerialError::NotConnected)),
        slot is Some ==> disconnect_spec(slot) == (None::<H>, Ok::<H, SerialError>(slot->Some_0)),
{
}

} // verus!
