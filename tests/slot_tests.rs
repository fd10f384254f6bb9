use bitcore::{ConnectionSlot, SerialError};

#[test]
fn new_slot_is_empty() {
    let slot: ConnectionSlot<u32> = ConnectionSlot::new();
    assert!(!slot.is_connected());
    assert_eq!(slot.ensure_vacant(), Ok(()));
}

#[test]
fn connect_installs_handle() {
    let mut slot: ConnectionSlot<u32> = ConnectionSlot::new();
    assert_eq!(slot.connect(Ok(7)), Ok(()));
    assert!(slot.is_connected());
    assert_eq!(slot.ensure_vacant(), Err(SerialError::AlreadyConnected));
}

#[test]
fn connect_twice_keeps_first_connection() {
    let mut slot: ConnectionSlot<u32> = ConnectionSlot::new();
    assert_eq!(slot.connect(Ok(1)), Ok(()));
    assert_eq!(slot.connect(Ok(2)), Err(SerialError::AlreadyConnected));
    assert_eq!(slot.connect(Err("busy".to_string())), Err(SerialError::AlreadyConnected));
    assert_eq!(slot.disconnect(), Ok(1));
}

#[test]
fn refused_connection_leaves_slot_empty() {
    let mut slot: ConnectionSlot<u32> = ConnectionSlot::new();
    assert_eq!(
        slot.connect(Err("permission denied".to_string())),
        Err(SerialError::ConnectionRefused("permission denied".to_string()))
    );
    assert!(!slot.is_connected());
}

#[test]
fn disconnect_empty_slot_is_not_connected() {
    let mut slot: ConnectionSlot<u32> = ConnectionSlot::new();
    assert_eq!(slot.disconnect(), Err(SerialError::NotConnected));
    assert!(!slot.is_connected());
}

#[test]
fn disconnect_returns_handle_and_empties_slot() {
    let mut slot: ConnectionSlot<u32> = ConnectionSlot::new();
    slot.connect(Ok(5)).unwrap();
    assert_eq!(slot.disconnect(), Ok(5));
    assert!(!slot.is_connected());
    assert_eq!(slot.disconnect(), Err(SerialError::NotConnected));
}

#[test]
fn connection_on_empty_slot_is_not_connected() {
    let mut slot: ConnectionSlot<u32> = ConnectionSlot::new();
    assert_eq!(slot.connection().err(), Some(SerialError::NotConnected));
}

#[test]
fn connection_gives_access_without_changing_occupancy() {
    let mut slot: ConnectionSlot<u32> = ConnectionSlot::new();
    slot.connect(Ok(10)).unwrap();
    {
        let handle = slot.connection().unwrap();
        *handle += 1;
    }
    assert!(slot.is_connected());
    assert_eq!(slot.disconnect(), Ok(11));
}
