use stabilize::frontend::{filter, Filter, RecvBuffer};

#[test]
fn test_no_filter() {
    let buffer = [0 as u8; 1024];
    match Filter::no_filter(&buffer) {
        Some(_) => assert!(true),
        None => assert!(false),
    }
}

#[test]
fn test_all_filter() {
    let buffer = [0 as u8; 1024];
    match Filter::all_filter(&buffer) {
        Some(_) => assert!(false),
        None => assert!(true),
    }
}

#[test]
fn filter_passes_or_drops() {
    let msg = b"test123";
    assert_eq!(filter(msg, Filter::NoFilter), Some(&msg[..]));
    assert_eq!(filter(msg, Filter::AllFilter), None);
}

#[test]
fn single_read_is_forwarded_unchanged() {
    let mut buffer = RecvBuffer::new();
    buffer.received(b"Returned");
    assert_eq!(buffer.total(), 8);
    assert_eq!(buffer.message(), b"Returned");
}

#[test]
fn reads_are_appended() {
    let mut buffer = RecvBuffer::new();
    buffer.received(b"Hello, ");
    buffer.received(b"wor");
    buffer.received(b"ld!");
    assert_eq!(buffer.total(), 13);
    assert_eq!(buffer.message(), b"Hello, world!");
}

#[test]
fn buffer_fills_to_its_size() {
    let mut buffer = RecvBuffer::new();
    buffer.received(&[7u8; 1000]);
    buffer.received(&[9u8; 24]);
    assert_eq!(buffer.total(), 1024);
    assert_eq!(&buffer.message()[..1000], &[7u8; 1000][..]);
    assert_eq!(&buffer.message()[1000..], &[9u8; 24][..]);
}

#[test]
fn empty_stream_gives_empty_message() {
    let buffer = RecvBuffer::new();
    assert_eq!(buffer.total(), 0);
    assert_eq!(buffer.message(), b"");
}
