use xdp_core::rings::{
    checked_log2, ring_read_index, ring_write_index, Config, Reader, Type, Writer, XdpDesc, XdpRing,
};
use xdp_core::XdpError;

fn desc(addr: u64) -> XdpDesc {
    XdpDesc { addr, len: 1, options: 0 }
}

#[test]
fn fifth_write_on_size_four_blocks_until_a_read() {
    let mut ring = XdpRing::<Writer>::new(Type::Tx, Config { size: 4 }).unwrap();
    assert_eq!(ring.size(), 4);
    for i in 1..=4u64 {
        assert_eq!(ring.write(desc(i)), Ok(()));
    }
    assert_eq!(ring.write(desc(5)), Err(XdpError::WouldBlock));
    assert_eq!(ring.len(), 4);
    assert_eq!(ring.peer_read(), Some(desc(1)));
    assert_eq!(ring.write(desc(6)), Ok(()));
    assert_eq!(ring.write(desc(7)), Err(XdpError::WouldBlock));
}

#[test]
fn reader_observes_writes_in_order_across_wrap() {
    let mut ring = XdpRing::<Reader>::new(Type::Rx, Config { size: 2 }).unwrap();
    assert_eq!(ring.read(), None);
    for round in 0..10u64 {
        ring.peer_write(desc(2 * round)).unwrap();
        ring.peer_write(desc(2 * round + 1)).unwrap();
        assert_eq!(ring.peer_write(desc(99)), Err(XdpError::WouldBlock));
        assert_eq!(ring.read(), Some(desc(2 * round)));
        assert_eq!(ring.read(), Some(desc(2 * round + 1)));
        assert_eq!(ring.read(), None);
    }
    assert_eq!(ring.type_(), Type::Rx);
}

#[test]
fn ring_size_must_be_power_of_two() {
    assert!(matches!(
        XdpRing::<Reader>::new(Type::Rx, Config { size: 3 }),
        Err(XdpError::InvalidInput)
    ));
    assert!(matches!(
        XdpRing::<Writer>::new(Type::Fill, Config { size: 0 }),
        Err(XdpError::InvalidInput)
    ));
    assert!(XdpRing::<Writer>::new(Type::Fill, Config { size: 1 }).is_ok());
}

#[test]
fn log2_of_sizes() {
    assert_eq!(checked_log2(1), Some(0));
    assert_eq!(checked_log2(4096), Some(12));
    assert_eq!(checked_log2(6), None);
    assert_eq!(checked_log2(0), None);
}

#[test]
fn index_protocol_with_wrapping_counters() {
    assert_eq!(ring_read_index(5, 5, 3), None);
    assert_eq!(ring_read_index(5, 7, 3), Some(1));
    assert_eq!(ring_read_index(u32::MAX, 1, 3), Some(3));
    assert_eq!(ring_write_index(0, 4, 3), None);
    assert_eq!(ring_write_index(0, 3, 3), Some(3));
    assert_eq!(ring_write_index(u32::MAX, 2, 3), Some(2));
    assert_eq!(ring_write_index(u32::MAX - 1, 2, 3), None);
}

#[test]
fn peek_leaves_descriptor_in_place() {
    let mut ring = XdpRing::<Writer>::new(Type::Fill, Config { size: 2 }).unwrap();
    assert_eq!(ring.peek(), None);
    ring.write(desc(3)).unwrap();
    assert_eq!(ring.peek(), Some(desc(3)));
    assert_eq!(ring.peer_read(), Some(desc(3)));
    assert_eq!(ring.peek(), None);
}
