use ouisync_core::blob::{block_count, locate, Blob, BlockPosition, SeekFrom, BLOCK_SIZE};
use ouisync_core::error::Error;

const HEADER_SIZE: u64 = 16;

#[test]
fn what_was_written_is_read_back() {
    let mut blob = Blob::create();
    blob.write(b"hello world");
    assert_eq!(blob.len(), 11);
    assert!(blob.is_dirty());

    assert_eq!(blob.seek(SeekFrom::Start(0)), 0);
    assert_eq!(blob.read_to_end(), b"hello world");

    assert_eq!(blob.seek(SeekFrom::Start(6)), 6);
    let mut buffer = vec![0u8; 3];
    assert_eq!(blob.read(&mut buffer), 3);
    assert_eq!(buffer, b"wor");
    // Less is left than the buffer takes.
    let mut buffer = vec![b'.'; 4];
    assert_eq!(blob.read(&mut buffer), 2);
    assert_eq!(buffer, b"ld..");
    assert_eq!(blob.read(&mut buffer), 0);
}

#[test]
fn write_overwrites_and_lengthens() {
    let mut blob = Blob::open(b"abcdef".to_vec());
    assert!(!blob.is_dirty());
    blob.seek(SeekFrom::Start(4));
    blob.write(b"XYZ");
    assert!(blob.is_dirty());
    blob.seek(SeekFrom::Start(0));
    assert_eq!(blob.read_to_end(), b"abcdXYZ");

    blob.seek(SeekFrom::Start(1));
    blob.write(b"__");
    blob.seek(SeekFrom::Start(0));
    assert_eq!(blob.read_to_end(), b"a__dXYZ");

    blob.mark_flushed();
    blob.write(b"");
    assert!(!blob.is_dirty());
}

#[test]
fn seek_stays_within_the_blob() {
    let mut blob = Blob::open(b"0123456789".to_vec());
    assert_eq!(blob.seek(SeekFrom::Start(4)), 4);
    assert_eq!(blob.seek(SeekFrom::Current(3)), 7);
    assert_eq!(blob.seek(SeekFrom::Current(-2)), 5);
    assert_eq!(blob.seek(SeekFrom::End(-1)), 9);
    assert_eq!(blob.seek(SeekFrom::End(0)), 10);
    assert_eq!(blob.seek(SeekFrom::End(5)), 10);
    assert_eq!(blob.seek(SeekFrom::Start(99)), 10);
    assert_eq!(blob.seek(SeekFrom::Current(-99)), 0);
    assert_eq!(blob.seek(SeekFrom::End(i64::MIN)), 0);
    assert_eq!(blob.seek(SeekFrom::Current(i64::MAX)), 10);
}

#[test]
fn truncate_sets_the_length() {
    let mut blob = Blob::open(b"0123456789".to_vec());
    blob.seek(SeekFrom::Start(8));
    assert_eq!(blob.truncate(4), Ok(()));
    assert_eq!(blob.len(), 4);
    assert!(blob.is_dirty());
    // The cursor was behind the new end.
    assert_eq!(blob.read_to_end(), b"");
    blob.seek(SeekFrom::Start(0));
    assert_eq!(blob.read_to_end(), b"0123");

    assert_eq!(blob.truncate(5), Err(Error::OperationNotSupported));
    assert_eq!(blob.len(), 4);
    assert_eq!(blob.truncate(0), Ok(()));
    assert_eq!(blob.len(), 0);
}

#[test]
fn a_blob_without_content_takes_the_head_block_only() {
    assert_eq!(block_count(0, HEADER_SIZE), 1);
}

#[test]
fn one_block_and_one_block_plus_one_byte() {
    assert_eq!(BLOCK_SIZE, 32768);
    let capacity = BLOCK_SIZE - HEADER_SIZE;
    assert_eq!(block_count(capacity, HEADER_SIZE), 1);
    assert_eq!(block_count(capacity + 1, HEADER_SIZE), 2);
    assert_eq!(block_count(capacity + BLOCK_SIZE, HEADER_SIZE), 2);
    assert_eq!(block_count(capacity + BLOCK_SIZE + 1, HEADER_SIZE), 3);

    // The last byte of the head block and the first of the next one.
    assert_eq!(locate(0, HEADER_SIZE), BlockPosition { block: 0, offset: 16 });
    assert_eq!(locate(capacity - 1, HEADER_SIZE), BlockPosition { block: 0, offset: 32767 });
    assert_eq!(locate(capacity, HEADER_SIZE), BlockPosition { block: 1, offset: 0 });
    assert_eq!(locate(capacity + BLOCK_SIZE, HEADER_SIZE), BlockPosition { block: 2, offset: 0 });
}

#[test]
fn copy_goes_through_a_buffer() {
    // Nothing to copy: one empty chunk.
    let mut blob = Blob::create();
    assert_eq!(blob.copy_chunks(4), vec![Vec::<u8>::new()]);

    // Exactly one buffer: a full chunk, then an empty one that ends the copy.
    let mut blob = Blob::open(b"abcd".to_vec());
    assert_eq!(blob.copy_chunks(4), vec![b"abcd".to_vec(), vec![]]);
    assert_eq!(blob.read_to_end(), b"");

    // One buffer and one byte.
    let mut blob = Blob::open(b"abcde".to_vec());
    assert_eq!(blob.copy_chunks(4), vec![b"abcd".to_vec(), b"e".to_vec()]);

    // From the cursor on.
    let mut blob = Blob::open(b"0123456789".to_vec());
    blob.seek(SeekFrom::Start(3));
    let chunks = blob.copy_chunks(3);
    assert_eq!(chunks, vec![b"345".to_vec(), b"678".to_vec(), b"9".to_vec()]);
    assert_eq!(chunks.concat(), b"3456789");
}
