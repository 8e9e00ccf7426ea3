use treecopy::chunk::{ChunkCursor, ChunkError};
use treecopy::config::Config;
use treecopy::oracle::MemoryOracle;

fn copy_in_chunks(source: &[u8], cursor: &mut ChunkCursor) -> (Vec<u8>, Vec<u64>) {
    let mut destination = Vec::new();
    let mut lengths = Vec::new();
    loop {
        let len = cursor.next_len();
        if len == 0 {
            break;
        }
        let from = cursor.bytes_read() as usize;
        destination.extend_from_slice(&source[from..from + len as usize]);
        lengths.push(len);
        cursor.advance();
    }
    (destination, lengths)
}

#[test]
fn chunks_reassemble_to_the_source() {
    let source: Vec<u8> = (0..=255u8).cycle().take(2000).collect();
    let mut cursor = ChunkCursor::begin(&Config::new(100, 0), 1000, 2000).unwrap();
    assert_eq!(cursor.chunk_size(), 900);
    assert_eq!(cursor.chunk_count(), 3);
    let (destination, lengths) = copy_in_chunks(&source, &mut cursor);
    assert_eq!(destination, source);
    assert_eq!(lengths, vec![900, 900, 200]);
    assert!(cursor.is_complete());
    assert_eq!(cursor.bytes_read(), 2000);
}

#[test]
fn evenly_divided_file_has_no_partial_chunk() {
    let source: Vec<u8> = (0..100u8).collect();
    let mut cursor = ChunkCursor::begin(&Config::new(0, 25), 1000, 100).unwrap();
    assert_eq!(cursor.chunk_count(), 4);
    let (destination, lengths) = copy_in_chunks(&source, &mut cursor);
    assert_eq!(destination, source);
    assert_eq!(lengths, vec![25, 25, 25, 25]);
}

#[test]
fn chunk_of_one_byte_copies_byte_by_byte() {
    let source: Vec<u8> = vec![9, 8, 7];
    let mut cursor = ChunkCursor::begin(&Config::new(0, 1), 1000, 3).unwrap();
    assert_eq!(cursor.chunk_count(), 3);
    let (destination, lengths) = copy_in_chunks(&source, &mut cursor);
    assert_eq!(destination, source);
    assert_eq!(lengths, vec![1, 1, 1]);
}

#[test]
fn chunk_larger_than_the_file_reads_it_at_once() {
    let source: Vec<u8> = vec![1, 2, 3, 4, 5];
    let mut cursor = ChunkCursor::begin(&Config::new(0, 0), 1000, 5).unwrap();
    assert_eq!(cursor.chunk_size(), 1000);
    assert_eq!(cursor.chunk_count(), 1);
    assert_eq!(cursor.next_len(), 5);
    let (destination, lengths) = copy_in_chunks(&source, &mut cursor);
    assert_eq!(destination, source);
    assert_eq!(lengths, vec![5]);
}

#[test]
fn empty_file_has_no_chunks() {
    let mut cursor = ChunkCursor::begin(&Config::new(100, 0), 1000, 0).unwrap();
    assert_eq!(cursor.chunk_count(), 0);
    assert_eq!(cursor.next_len(), 0);
    assert!(cursor.is_complete());
    let (destination, lengths) = copy_in_chunks(&[], &mut cursor);
    assert!(destination.is_empty());
    assert!(lengths.is_empty());
}

#[test]
fn empty_file_succeeds_without_available_memory() {
    let cursor = ChunkCursor::begin(&Config::new(100, 0), 50, 0).unwrap();
    assert_eq!(cursor.chunk_size(), 0);
    assert_eq!(cursor.chunk_count(), 0);
    assert!(cursor.is_complete());
}

#[test]
fn no_available_memory_is_no_progress() {
    assert_eq!(
        ChunkCursor::begin(&Config::new(100, 0), 100, 1).unwrap_err(),
        ChunkError::NoProgress
    );
    assert_eq!(
        ChunkCursor::begin(&Config::new(100, 10), 99, 2000).unwrap_err(),
        ChunkError::NoProgress
    );
    assert!(ChunkCursor::begin(&Config::new(100, 0), 101, 1).is_ok());
}

#[test]
fn advancing_a_complete_cursor_changes_nothing() {
    let mut cursor = ChunkCursor::begin(&Config::new(0, 0), 10, 4).unwrap();
    cursor.advance();
    assert!(cursor.is_complete());
    cursor.advance();
    assert_eq!(cursor.bytes_read(), 4);
    assert_eq!(cursor.file_size(), 4);
}

#[test]
fn chunk_count_is_size_over_chunk_rounded_up() {
    let count = |size: u64, chunk: u64| {
        ChunkCursor::begin(&Config::new(0, chunk), u64::MAX, size)
            .unwrap()
            .chunk_count()
    };
    assert_eq!(count(10, 3), 4);
    assert_eq!(count(9, 3), 3);
    assert_eq!(count(1, 3), 1);
    assert_eq!(count(u64::MAX, 1), u64::MAX);
    assert_eq!(count(u64::MAX, u64::MAX), 1);
    assert_eq!(count(u64::MAX, 2), 1 << 63);
}

#[test]
fn cursor_is_sized_from_one_oracle_reading() {
    let mut oracle = MemoryOracle::scripted(vec![1000, 150]);
    let config = Config::new(100, 0);
    let first = ChunkCursor::sense(&config, &mut oracle, 2000).unwrap();
    assert_eq!(first.chunk_size(), 900);
    let second = ChunkCursor::sense(&config, &mut oracle, 2000).unwrap();
    assert_eq!(second.chunk_size(), 50);
    assert_eq!(second.chunk_count(), 40);
}

#[test]
fn cursor_sensing_reports_no_progress() {
    let mut oracle = MemoryOracle::scripted(vec![100]);
    assert_eq!(
        ChunkCursor::sense(&Config::new(100, 0), &mut oracle, 5).unwrap_err(),
        ChunkError::NoProgress
    );
}

#[test]
fn cursor_sensing_the_system_never_yields_a_zero_chunk_for_bytes() {
    let mut oracle = MemoryOracle::system();
    match ChunkCursor::sense(&Config::new(0, 64), &mut oracle, 1000) {
        Ok(cursor) => {
            assert!(cursor.chunk_size() >= 1 && cursor.chunk_size() <= 64);
            assert!(cursor.next_len() >= 1);
        }
        Err(error) => assert_eq!(error, ChunkError::NoProgress),
    }
}
