use treecopy::chunk::ChunkCursor;
use treecopy::config::Config;
use treecopy::effect::FsOp;
use treecopy::oracle::MemoryOracle;
use treecopy::replicator::{BigFile, Entry, Replicator, Route};

fn dir(path: &str) -> FsOp {
    FsOp::CreateDir { path: path.to_string() }
}

fn file(path: &str, content: &[u8]) -> FsOp {
    FsOp::WriteFile { path: path.to_string(), content: content.to_vec() }
}

fn file_entry(absolute: &str, size: u64) -> Entry {
    Entry::from_walk(absolute.to_string(), "/src", false, size)
}

#[test]
fn entry_carries_the_derived_relative_path() {
    let entry = Entry::from_walk("/src/a/b ".to_string(), "/src", true, 0);
    assert_eq!(
        entry,
        Entry {
            absolute_path: "/src/a/b ".to_string(),
            relative_path: "/a/b".to_string(),
            is_directory: true,
            size_bytes: 0,
        }
    );
}

#[test]
fn a_new_run_holds_nothing() {
    let mut run = Replicator::new(Config::new(100, 7), "/dst".to_string());
    assert_eq!(run.config(), Config::new(100, 7));
    assert_eq!(run.destination_root(), "/dst");
    assert_eq!(run.pending_directories(), 0);
    assert_eq!(run.buffered_files(), 0);
    assert_eq!(run.deferred_files(), 0);
    assert_eq!(run.finish(), (Vec::new(), Vec::new()));
}

#[test]
fn small_file_is_buffered_and_big_file_is_chunked() {
    let mut run = Replicator::new(Config::new(100, 0), "/dst".to_string());
    let mut oracle = MemoryOracle::scripted(vec![1000]);
    let a = file_entry("/src/a", 50);
    let b = file_entry("/src/b", 2000);
    let source_b: Vec<u8> = (0..2000u32).map(|i| (i % 251) as u8).collect();

    assert_eq!(run.prepare(a.size_bytes, &mut oracle), Vec::new());
    assert_eq!(run.route(&a, &mut oracle), Route::Buffer);
    run.accept_file(a.relative_path.clone(), vec![7; 50]);

    assert_eq!(
        run.prepare(b.size_bytes, &mut oracle),
        vec![file("/dst/a", &[7; 50])]
    );
    assert_eq!(run.route(&b, &mut oracle), Route::Chunked);
    assert_eq!(run.buffered_files(), 0);
    assert_eq!(run.deferred_files(), 1);

    let (ops, big) = run.finish();
    assert_eq!(ops, Vec::new());
    assert_eq!(
        big,
        vec![BigFile {
            absolute_path: "/src/b".to_string(),
            relative_path: "/b".to_string(),
            size_bytes: 2000,
        }]
    );

    let mut cursor = ChunkCursor::sense(&run.config(), &mut oracle, big[0].size_bytes).unwrap();
    assert!(cursor.chunk_size() <= 900);
    let mut destination = Vec::new();
    while !cursor.is_complete() {
        let from = cursor.bytes_read() as usize;
        let len = cursor.next_len() as usize;
        assert!(len <= 900);
        destination.extend_from_slice(&source_b[from..from + len]);
        cursor.advance();
    }
    assert_eq!(destination, source_b);
}

#[test]
fn buffer_is_flushed_before_the_next_file_when_memory_drops() {
    let mut run = Replicator::new(Config::new(100, 0), "/dst".to_string());
    run.accept_directory("/d".to_string());
    let first = file_entry("/src/d/one", 10);
    assert_eq!(run.prepare_with(first.size_bytes, 1000), Vec::new());
    assert_eq!(run.route_with(&first, 1000), Route::Buffer);
    run.accept_file(first.relative_path.clone(), vec![1; 10]);
    run.accept_directory("/e".to_string());

    let next = file_entry("/src/e/two", 20);
    let ops = run.prepare_with(next.size_bytes, 119);
    assert_eq!(
        ops,
        vec![dir("/dst/d"), dir("/dst/e"), file("/dst/d/one", &[1; 10])]
    );
    assert_eq!(run.pending_directories(), 0);
    assert_eq!(run.buffered_files(), 0);
}

#[test]
fn buffer_is_kept_while_memory_suffices() {
    let mut run = Replicator::new(Config::new(100, 0), "/dst".to_string());
    run.accept_directory("/d".to_string());
    run.accept_file("/d/one".to_string(), vec![1; 10]);
    assert_eq!(run.prepare_with(20, 120), Vec::new());
    assert_eq!(run.pending_directories(), 1);
    assert_eq!(run.buffered_files(), 1);
}

#[test]
fn file_over_the_size_limit_is_chunked_despite_ample_memory() {
    let mut run = Replicator::new(Config::new(100, 64), "/dst".to_string());
    let over = file_entry("/src/over", 65);
    let at = file_entry("/src/at", 64);
    assert_eq!(run.route_with(&over, u64::MAX), Route::Chunked);
    assert_eq!(run.route_with(&at, u64::MAX), Route::Buffer);
    assert_eq!(run.deferred_files(), 1);
}

#[test]
fn file_is_chunked_when_free_memory_is_below_the_margin() {
    let mut run = Replicator::new(Config::new(100, 0), "/dst".to_string());
    let empty = file_entry("/src/empty", 0);
    assert_eq!(run.route_with(&empty, 99), Route::Chunked);
    assert_eq!(run.route_with(&empty, 100), Route::Buffer);
}

#[test]
fn every_buffered_file_fits_the_reading_it_was_accepted_under() {
    let config = Config::new(100, 0);
    let readings = vec![1000, 1000, 400, 400, 150, 150, 5000, 5000];
    let sizes = [300u64, 300, 60, 4000];
    let mut oracle = MemoryOracle::scripted(readings.clone());
    let mut run = Replicator::new(config, "/dst".to_string());
    for (index, size) in sizes.iter().enumerate() {
        let entry = file_entry(&format!("/src/f{}", index), *size);
        run.prepare(*size, &mut oracle);
        let reading = readings[2 * index + 1];
        match run.route(&entry, &mut oracle) {
            Route::Buffer => {
                assert!(size + config.margin_bytes <= reading);
                run.accept_file(entry.relative_path.clone(), vec![0; *size as usize]);
            }
            Route::Chunked => assert!(size + config.margin_bytes > reading),
        }
    }
    assert_eq!(run.buffered_files(), 1);
    assert_eq!(run.deferred_files(), 1);
}

#[test]
fn deferred_files_come_out_in_the_order_they_were_met() {
    let mut run = Replicator::new(Config::new(0, 10), "/dst".to_string());
    for name in ["/src/z", "/src/a", "/src/m"] {
        assert_eq!(run.route_with(&file_entry(name, 11), 1 << 30), Route::Chunked);
    }
    let (_, big) = run.finish();
    let names: Vec<&str> = big.iter().map(|f| f.relative_path.as_str()).collect();
    assert_eq!(names, vec!["/z", "/a", "/m"]);
    assert_eq!(run.deferred_files(), 0);
}

#[test]
fn finish_flushes_what_is_pending() {
    let mut run = Replicator::new(Config::new(100, 0), "/dst".to_string());
    run.accept_directory("".to_string());
    run.accept_directory("/sub".to_string());
    run.accept_file("/sub/f".to_string(), vec![5]);
    let (ops, big) = run.finish();
    assert_eq!(ops, vec![dir("/dst"), dir("/dst/sub"), file("/dst/sub/f", &[5])]);
    assert!(big.is_empty());
    assert_eq!(run.finish(), (Vec::new(), Vec::new()));
}
