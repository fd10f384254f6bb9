use bitcore::poll::{probe_after_query, probe_after_read};
use bitcore::{ConnectionSlot, ReadPoll, ReadStep, SerialError, WriteRetry, WriteStep, POLL_INTERVAL_MS};

/// A loopback device: whatever is written comes back on the next read.
struct EchoDevice {
    pending: Vec<u8>,
}

impl EchoDevice {
    fn write(&mut self, data: &[u8]) -> Result<usize, String> {
        self.pending.extend_from_slice(data);
        Ok(data.len())
    }

    fn bytes_available(&self) -> Result<u32, String> {
        Ok(self.pending.len() as u32)
    }

    fn read(&mut self, buf: &mut [u8]) -> Result<usize, String> {
        let n = buf.len().min(self.pending.len());
        buf[..n].copy_from_slice(&self.pending[..n]);
        self.pending.drain(..n);
        Ok(n)
    }
}

fn write(slot: &mut ConnectionSlot<EchoDevice>, data: &[u8], retries: usize) -> Result<usize, SerialError> {
    let dev = slot.connection()?;
    let mut policy = WriteRetry::new(retries);
    loop {
        if let WriteStep::Done(r) = policy.record(dev.write(data)) {
            return r;
        }
    }
}

fn read(slot: &mut ConnectionSlot<EchoDevice>, buf: &mut [u8], timeout_ms: u64) -> Result<usize, SerialError> {
    let dev = slot.connection()?;
    let mut poll = ReadPoll::new(timeout_ms);
    let mut now = 0;
    let mut step = poll.on_clock(now);
    loop {
        match step {
            ReadStep::Poll => {
                let probe = match probe_after_query(dev.bytes_available()) {
                    Some(p) => p,
                    None => probe_after_read(dev.read(buf)),
                };
                step = poll.on_probe(probe);
            }
            ReadStep::Sleep => {
                now += POLL_INTERVAL_MS;
                step = poll.on_clock(now);
            }
            ReadStep::Done(r) => return r,
        }
    }
}

#[test]
fn connect_write_read_disconnect() {
    let mut slot: ConnectionSlot<EchoDevice> = ConnectionSlot::new();
    assert_eq!(slot.ensure_vacant(), Ok(()));
    assert_eq!(slot.connect(Ok(EchoDevice { pending: Vec::new() })), Ok(()));

    let written = write(&mut slot, b"PING", 3).unwrap();
    assert!(written <= 4);

    let mut buf = [0u8; 64];
    match read(&mut slot, &mut buf, 1000) {
        Ok(n) => assert_eq!(&buf[..n], b"PING"),
        Err(e) => assert_eq!(e, SerialError::TimedOut),
    }

    assert!(slot.disconnect().is_ok());
    assert_eq!(read(&mut slot, &mut buf, 1000), Err(SerialError::NotConnected));
    assert_eq!(write(&mut slot, b"PING", 3), Err(SerialError::NotConnected));
}

#[test]
fn read_without_data_times_out() {
    let mut slot: ConnectionSlot<EchoDevice> = ConnectionSlot::new();
    slot.connect(Ok(EchoDevice { pending: Vec::new() })).unwrap();
    let mut buf = [0u8; 8];
    assert_eq!(read(&mut slot, &mut buf, 300), Err(SerialError::TimedOut));
}
