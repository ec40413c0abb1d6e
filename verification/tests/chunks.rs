use coreutils::chunks::{ChunkedItem, ChunkedReader, ChunkedSource};

#[test]
fn test_empty() {
    let data: [u8; 0] = [];
    let mut reader = ChunkedReader::new(data.to_vec(), 0x0, 256);

    assert_eq!(reader.next().unwrap(), ChunkedItem::Chunk(vec![]));

    assert!(reader.next().is_none());
}

#[test]
fn test_1_piece() {
    let data = [1u8; 10];
    let mut reader = ChunkedReader::new(data.to_vec(), 0x0, 256);

    assert_eq!(reader.next().unwrap(), ChunkedItem::Chunk(vec![1u8; 10]));

    assert!(reader.next().is_none());
}

#[test]
fn test_2_piece() {
    let data = [1u8, 1, 1, 0, 1, 1, 1, 0];
    let mut reader = ChunkedReader::new(data.to_vec(), 0x0, 6);

    assert_eq!(reader.next().unwrap(), ChunkedItem::Chunk(vec![1u8; 3]));
    assert_eq!(reader.next().unwrap(), ChunkedItem::Chunk(vec![1u8; 3]));

    assert!(reader.next().is_none());
}

#[test]
fn test_only_delims() {
    let data = [0u8; 10];
    let mut reader = ChunkedReader::new(data.to_vec(), 0x0, 6);

    assert_eq!(reader.next().unwrap(), ChunkedItem::Chunk(vec![0u8; 5]));
    assert_eq!(reader.next().unwrap(), ChunkedItem::Chunk(vec![0u8; 3]));

    assert!(reader.next().is_none());
}

#[test]
fn test_delim_at_start() {
    let data = [0u8, 1, 1, 1, 1, 1, 1, 1, 1, 1];
    let mut reader = ChunkedReader::new(data.to_vec(), 0x0, 10);

    assert_eq!(reader.next().unwrap(), ChunkedItem::Chunk(vec![]));
    assert_eq!(reader.next().unwrap(), ChunkedItem::Chunk(vec![1; 9]));

    assert!(reader.next().is_none());
}

#[test]
fn test_bail() {
    // 5 times b1, 1 time b0, 15 times b1
    let mut data = vec![1; 5];
    data.push(0);
    data.extend_from_slice(&[1; 15]);
    data.push(0);

    // create a reader that clips on b0, with max length 10
    let mut reader = ChunkedReader::new(data, 0x0, 10);

    // first chunk will be successful
    assert_eq!(reader.next().unwrap(), ChunkedItem::Chunk(vec![1; 5]));

    // next chunk should bail, since it does not fit in the buffer
    let (data, read) = match reader.next().expect("empty") {
        ChunkedItem::Chunk(_data) => unreachable!(),
        ChunkedItem::Bail(data, read) => (data, read),
    };

    // ten bytes of data were consumed
    assert_eq!(data, vec![1; 10]);

    // 6 bytes are left in the reader
    assert_eq!(read.len(), 6);
    assert_eq!(read, vec![1, 1, 1, 1, 1, 0]);

    // reader is exhausted
    assert!(reader.next().is_none());
}

#[test]
fn chunk_bail_line_example() {
    let data = b"12345\n123456789012345\n".to_vec();

    // a reader that clips on newlines, with max length 10
    let mut reader = ChunkedReader::new(data, b'\n', 10);

    // the first chunk fits
    assert_eq!(reader.next().unwrap(), ChunkedItem::Chunk(b"12345".to_vec()));

    // the second does not: the reader bails with what it consumed and the
    // untouched remainder of the stream
    let (partial, rest) = match reader.next().expect("empty") {
        ChunkedItem::Chunk(_) => unreachable!(),
        ChunkedItem::Bail(partial, rest) => (partial, rest),
    };
    assert_eq!(partial, b"1234567890".to_vec());
    assert_eq!(rest, b"12345\n".to_vec());

    assert!(reader.next().is_none());
}

#[test]
fn source_serves_streams_in_order() {
    let streams = vec![b"hello\nworld\n".to_vec(), b"tail".to_vec()];
    let mut source = ChunkedSource::new(streams, b'\n', 256);
    assert_eq!(source.next().unwrap(), ChunkedItem::Chunk(b"hello\nworld".to_vec()));
    assert_eq!(source.next().unwrap(), ChunkedItem::Chunk(b"tail".to_vec()));
    assert!(source.next().is_none());
}

#[test]
fn source_does_not_concatenate_streams() {
    // one stream's unterminated tail is its own final chunk
    let streams = vec![b"a\nbc".to_vec(), b"d\n".to_vec()];
    let mut source = ChunkedSource::new(streams, b'\n', 3);
    assert_eq!(source.next().unwrap(), ChunkedItem::Chunk(b"a".to_vec()));
    assert_eq!(source.next().unwrap(), ChunkedItem::Chunk(b"bc".to_vec()));
    assert_eq!(source.next().unwrap(), ChunkedItem::Chunk(b"d".to_vec()));
    assert!(source.next().is_none());
}

#[test]
fn source_bails_mid_stream_and_moves_on() {
    let streams = vec![b"abcdef".to_vec(), b"x\n".to_vec()];
    let mut source = ChunkedSource::new(streams, b'\n', 4);
    // no delimiter within the bound: bail with the rest of that stream
    match source.next().unwrap() {
        ChunkedItem::Chunk(_) => unreachable!(),
        ChunkedItem::Bail(data, rest) => {
            assert_eq!(data, b"abcd".to_vec());
            assert_eq!(rest, b"ef".to_vec());
        }
    }
    // the source then serves the next stream
    assert_eq!(source.next().unwrap(), ChunkedItem::Chunk(b"x".to_vec()));
    assert!(source.next().is_none());
}

#[test]
fn chunk_split_small_buffer() {
    let data = b"hello\nworld\nhow\nare\nyou?\n".to_vec();

    // a reader that clips on newlines, with max length 16
    let mut reader = ChunkedReader::new(data, b'\n', 16);

    assert_eq!(
        reader.next().unwrap(),
        ChunkedItem::Chunk(b"hello\nworld\nhow".to_vec())
    );
    assert_eq!(reader.next().unwrap(), ChunkedItem::Chunk(b"are\nyou?".to_vec()));
    assert!(reader.next().is_none());
}
