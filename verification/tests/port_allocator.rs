use dev_manager_mcp::port_allocator::{AllocError, PortAllocator, PORT_START};

#[test]
fn port_start_has_documented_value() {
    assert_eq!(PORT_START, 3010);
}

#[test]
fn allocates_from_the_cursor_in_rising_order() {
    let mut ports = PortAllocator::new(3010);
    assert_eq!(ports.allocate(|_| true).unwrap(), 3010);
    assert_eq!(ports.allocate(|_| true).unwrap(), 3011);
    assert_eq!(ports.allocate(|_| true).unwrap(), 3012);
    assert!(ports.is_in_use(3010));
    assert!(ports.is_in_use(3012));
    assert!(!ports.is_in_use(3013));
}

#[test]
fn cursor_skips_ports_that_the_probe_turns_down() {
    let mut ports = PortAllocator::new(3010);
    assert_eq!(ports.allocate(|p| p >= 3013).unwrap(), 3013);
    // the ports that were passed over are not tried again
    assert_eq!(ports.allocate(|_| true).unwrap(), 3014);
    assert!(!ports.is_in_use(3010));
}

#[test]
fn freed_port_is_reused_before_the_cursor() {
    let mut ports = PortAllocator::new(3010);
    let first = ports.allocate(|_| true).unwrap();
    let second = ports.allocate(|_| true).unwrap();
    ports.free(first);
    assert!(!ports.is_in_use(first));
    assert_eq!(ports.allocate(|_| true).unwrap(), first);
    assert_eq!(ports.allocate(|_| true).unwrap(), second + 1);
}

#[test]
fn freed_ports_come_back_oldest_first() {
    let mut ports = PortAllocator::new(100);
    for _ in 0..3 {
        ports.allocate(|_| true).unwrap();
    }
    ports.free(101);
    ports.free(100);
    assert_eq!(ports.allocate(|_| true).unwrap(), 101);
    assert_eq!(ports.allocate(|_| true).unwrap(), 100);
    assert_eq!(ports.allocate(|_| true).unwrap(), 103);
}

#[test]
fn returned_port_that_the_probe_turns_down_is_dropped() {
    let mut ports = PortAllocator::new(3010);
    let a = ports.allocate(|_| true).unwrap();
    let b = ports.allocate(|_| true).unwrap();
    ports.free(a);
    ports.free(b);
    // 3010 is tried first and turned down, 3011 is accepted
    assert_eq!(ports.allocate(|p| p != 3010).unwrap(), 3011);
    // 3010 left the queue when it was tried: the cursor goes on
    assert_eq!(ports.allocate(|_| true).unwrap(), 3012);
}

#[test]
fn free_of_unknown_port_changes_nothing() {
    let mut ports = PortAllocator::new(3010);
    ports.free(3010);
    ports.free(9);
    assert_eq!(ports.allocate(|_| true).unwrap(), 3010);
    ports.free(3010);
    ports.free(3010);
    assert_eq!(ports.allocate(|_| true).unwrap(), 3010);
    assert_eq!(ports.allocate(|_| true).unwrap(), 3011);
}

#[test]
fn never_hands_out_a_port_twice_without_free() {
    let mut ports = PortAllocator::new(60000);
    let mut seen = std::collections::HashSet::new();
    for round in 0..2000u32 {
        let port = ports.allocate(|p| p % 3 != 0).unwrap();
        assert!(seen.insert(port), "port {} handed out twice", port);
        if round % 4 == 0 {
            ports.free(port);
            seen.remove(&port);
        }
    }
}

#[test]
fn overflow_when_cursor_reaches_the_maximum() {
    let mut ports = PortAllocator::new(65534);
    assert_eq!(ports.allocate(|_| true).unwrap(), 65534);
    assert!(matches!(ports.allocate(|_| true), Err(AllocError::Overflow)));
    // a port that comes back can still be handed out
    ports.free(65534);
    assert_eq!(ports.allocate(|_| true).unwrap(), 65534);
}

#[test]
fn overflow_at_once_when_started_at_the_maximum() {
    let mut ports = PortAllocator::new(u16::MAX);
    assert!(matches!(ports.allocate(|_| true), Err(AllocError::Overflow)));
}

#[test]
fn overflow_when_every_port_is_turned_down() {
    let mut ports = PortAllocator::new(3010);
    assert!(ports.allocate(|_| false).is_err());
    assert!(ports.allocate(|_| true).is_err());
}

#[test]
fn overflow_message_text() {
    assert_eq!(
        AllocError::Overflow.message(),
        "Port allocation overflow - no more ports available"
    );
}
