use ouisync_core::connection::{ConnectionDeduplicator, Endpoint, ReadStep, ReaderSet, WriterSet};

fn endpoint(port: u16) -> Endpoint {
    Endpoint { is_v6: false, ip: 0x7f00_0001, port }
}

#[test]
fn an_address_is_reserved_once() {
    let mut deduplicator = ConnectionDeduplicator::new();

    let permit = deduplicator.reserve(endpoint(1)).unwrap();
    assert_eq!(permit.id, 0);
    assert_eq!(permit.addr, endpoint(1));
    assert!(deduplicator.reserve(endpoint(1)).is_none());

    let other = deduplicator.reserve(endpoint(2)).unwrap();
    assert_eq!(other.id, 1);

    assert!(deduplicator.release(&permit));
    // Handing it back again does nothing.
    assert!(!deduplicator.release(&permit));

    let again = deduplicator.reserve(endpoint(1)).unwrap();
    assert_eq!(again.id, 2);
}

#[test]
fn a_stale_permit_does_not_free_a_new_reservation() {
    let mut deduplicator = ConnectionDeduplicator::new();
    let stale = deduplicator.reserve(endpoint(1)).unwrap();
    assert!(deduplicator.release(&stale));
    let current = deduplicator.reserve(endpoint(1)).unwrap();

    assert!(!deduplicator.release(&stale));
    assert!(deduplicator.reserve(endpoint(1)).is_none());
    assert!(deduplicator.release(&current));
}

#[test]
fn either_half_of_a_permit_releases_it() {
    let mut deduplicator = ConnectionDeduplicator::new();
    let permit = deduplicator.reserve(endpoint(1)).unwrap();
    let (reader_half, writer_half) = permit.split();
    assert_eq!(reader_half.0.id, writer_half.0.id);
    assert_eq!(reader_half.0.addr, endpoint(1));

    assert!(deduplicator.release(&writer_half.0));
    assert!(!deduplicator.release(&reader_half.0));
    assert!(deduplicator.reserve(endpoint(1)).is_some());
}

#[test]
fn reading_ends_when_the_last_reader_has_ended() {
    let mut readers = ReaderSet::new();
    assert!(!readers.can_read());
    readers.add();
    readers.add();
    assert!(readers.can_read());

    assert!(matches!(readers.on_read(Some(5u8)), ReadStep::Deliver(5)));
    assert!(matches!(readers.on_read(None::<u8>), ReadStep::Retry));
    assert!(readers.can_read());
    assert!(matches!(readers.on_read(None::<u8>), ReadStep::End));
    assert!(!readers.can_read());
}

#[test]
fn a_failed_writer_is_dropped() {
    let mut writers = WriterSet::new();
    assert_eq!(writers.pick_writer(), None);
    assert_eq!(writers.add(), 0);
    assert_eq!(writers.add(), 1);

    let first = writers.pick_writer().unwrap();
    assert!(!writers.on_write(first, false));
    let second = writers.pick_writer().unwrap();
    assert_ne!(first, second);
    assert!(writers.on_write(second, true));
    assert_eq!(writers.pick_writer(), Some(second));
    assert!(!writers.on_write(second, false));
    assert_eq!(writers.pick_writer(), None);
}
