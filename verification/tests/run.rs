use std::collections::BTreeMap;

use treecopy::chunk::{ChunkCursor, ChunkError};
use treecopy::config::Config;
use treecopy::effect::FsOp;
use treecopy::oracle::MemoryOracle;
use treecopy::paths::destination_path;
use treecopy::replicator::{Entry, Replicator, Route};

#[derive(Clone, Debug, PartialEq, Eq)]
enum Node {
    Directory,
    File(Vec<u8>),
}

#[derive(Clone, Debug, PartialEq, Eq)]
enum Event {
    MakeDir(String),
    Write(String),
    Truncate(String),
    Append(String, usize),
}

struct Source {
    path: &'static str,
    content: Option<Vec<u8>>,
}

fn directory(path: &'static str) -> Source {
    Source { path, content: None }
}

fn file(path: &'static str, size: usize, seed: u8) -> Source {
    let content = (0..size).map(|i| seed.wrapping_add((i % 7) as u8)).collect();
    Source { path, content: Some(content) }
}

fn carry_out(ops: Vec<FsOp>, tree: &mut BTreeMap<String, Node>, events: &mut Vec<Event>) {
    for op in ops {
        match op {
            FsOp::CreateDir { path } => {
                events.push(Event::MakeDir(path.clone()));
                for (at, c) in path.char_indices() {
                    if c == '/' && at > 0 {
                        tree.entry(path[..at].to_string()).or_insert(Node::Directory);
                    }
                }
                tree.insert(path, Node::Directory);
            }
            FsOp::WriteFile { path, content } => {
                events.push(Event::Write(path.clone()));
                tree.insert(path, Node::File(content));
            }
        }
    }
}

fn replicate(
    config: Config,
    sources: &[Source],
    readings: Vec<u64>,
    tree: &mut BTreeMap<String, Node>,
) -> Result<Vec<Event>, ChunkError> {
    let mut oracle = MemoryOracle::scripted(readings);
    let mut run = Replicator::new(config, "/dst".to_string());
    let mut events = Vec::new();
    for source in sources {
        let absolute = format!("/src{}", source.path);
        match &source.content {
            None => {
                let entry = Entry::from_walk(absolute, "/src", true, 0);
                run.accept_directory(entry.relative_path);
            }
            Some(content) => {
                let entry = Entry::from_walk(absolute, "/src", false, content.len() as u64);
                carry_out(run.prepare(entry.size_bytes, &mut oracle), tree, &mut events);
                if run.route(&entry, &mut oracle) == Route::Buffer {
                    run.accept_file(entry.relative_path, content.clone());
                }
            }
        }
    }
    let (pending, big_files) = run.finish();
    carry_out(pending, tree, &mut events);
    for big_file in big_files {
        let content = sources
            .iter()
            .find(|s| format!("/src{}", s.path) == big_file.absolute_path)
            .and_then(|s| s.content.as_ref())
            .unwrap();
        let mut cursor = ChunkCursor::sense(&config, &mut oracle, big_file.size_bytes)?;
        let path = destination_path("/dst", &big_file.relative_path);
        events.push(Event::Truncate(path.clone()));
        tree.insert(path.clone(), Node::File(Vec::new()));
        while !cursor.is_complete() {
            let from = cursor.bytes_read() as usize;
            let len = cursor.next_len() as usize;
            events.push(Event::Append(path.clone(), len));
            if let Some(Node::File(written)) = tree.get_mut(&path) {
                written.extend_from_slice(&content[from..from + len]);
            }
            cursor.advance();
        }
    }
    Ok(events)
}

fn sample_tree() -> Vec<Source> {
    vec![
        directory(""),
        file("/a.txt", 50, 1),
        directory("/sub"),
        file("/sub/big.bin", 2000, 2),
        file("/sub/empty", 0, 3),
        directory("/sub/deep"),
        file("/sub/deep/c.txt", 300, 4),
        file("/z.bin", 901, 5),
    ]
}

fn expected(sources: &[Source]) -> BTreeMap<String, Node> {
    sources
        .iter()
        .map(|s| {
            let node = match &s.content {
                None => Node::Directory,
                Some(content) => Node::File(content.clone()),
            };
            (format!("/dst{}", s.path), node)
        })
        .collect()
}

#[test]
fn every_entry_arrives_with_its_content() {
    let sources = sample_tree();
    let mut tree = BTreeMap::new();
    replicate(Config::new(100, 0), &sources, vec![1000], &mut tree).unwrap();
    assert_eq!(tree, expected(&sources));
}

#[test]
fn every_entry_arrives_under_changing_memory() {
    let sources = sample_tree();
    let readings = vec![5000, 5000, 90, 90, 100, 100, 350, 450, 1001, 1001, 101, 107];
    let mut tree = BTreeMap::new();
    tree.insert("/dst/a.txt".to_string(), Node::Directory);
    tree.insert("/dst/other".to_string(), Node::File(vec![1]));
    let events = replicate(Config::new(100, 400), &sources, readings, &mut tree).unwrap();
    let mut wanted = expected(&sources);
    wanted.insert("/dst/other".to_string(), Node::File(vec![1]));
    assert_eq!(tree, wanted);
    assert!(events.contains(&Event::Truncate("/dst/sub/big.bin".to_string())));
    assert!(events.contains(&Event::Truncate("/dst/z.bin".to_string())));
    assert!(events.contains(&Event::Append("/dst/z.bin".to_string(), 7)));
    assert!(events.contains(&Event::Write("/dst/sub/empty".to_string())));
    assert!(events.contains(&Event::Write("/dst/a.txt".to_string())));
}

#[test]
fn every_entry_arrives_when_nothing_can_be_buffered() {
    let sources = sample_tree();
    let mut tree = BTreeMap::new();
    let events = replicate(Config::new(100, 1), &sources, vec![1 << 40], &mut tree).unwrap();
    assert_eq!(tree, expected(&sources));
    assert!(events.iter().all(|e| !matches!(e, Event::Write(path) if path != "/dst/sub/empty")));
}

#[test]
fn a_second_run_leaves_the_destination_as_the_first_did() {
    let sources = sample_tree();
    let mut tree = BTreeMap::new();
    replicate(Config::new(100, 0), &sources, vec![1000], &mut tree).unwrap();
    let once = tree.clone();
    replicate(Config::new(100, 0), &sources, vec![1000], &mut tree).unwrap();
    assert_eq!(tree, once);
    replicate(Config::new(100, 0), &sources, vec![150, 400, 100, 3000], &mut tree).unwrap();
    assert_eq!(tree, once);
}

#[test]
fn directories_are_made_before_the_files_met_after_them() {
    let sources = sample_tree();
    let starved = vec![100, 100, 100, 100, 100, 100, 100, 100, 100, 100, 164];
    for readings in [vec![1000], starved, vec![5000, 90, 400, 120, 480], vec![1 << 40]] {
        let mut tree = BTreeMap::new();
        let events = replicate(Config::new(100, 0), &sources, readings, &mut tree).unwrap();
        for (j, source) in sources.iter().enumerate() {
            if source.content.is_none() {
                continue;
            }
            let path = format!("/dst{}", source.path);
            let first_touch = events
                .iter()
                .position(|e| match e {
                    Event::Write(p) | Event::Truncate(p) | Event::Append(p, _) => *p == path,
                    Event::MakeDir(_) => false,
                })
                .unwrap();
            for earlier in sources[..j].iter().filter(|s| s.content.is_none()) {
                let made = Event::MakeDir(format!("/dst{}", earlier.path));
                let at = events.iter().position(|e| *e == made).unwrap();
                assert!(at < first_touch, "{:?} before {}", made, path);
            }
        }
    }
}

#[test]
fn chunks_of_a_deferred_file_are_sized_from_its_own_reading() {
    let sources = vec![file("/big", 2000, 9)];
    let mut tree = BTreeMap::new();
    let events = replicate(Config::new(100, 0), &sources, vec![1000, 1000, 800], &mut tree).unwrap();
    assert_eq!(
        events,
        vec![
            Event::Truncate("/dst/big".to_string()),
            Event::Append("/dst/big".to_string(), 700),
            Event::Append("/dst/big".to_string(), 700),
            Event::Append("/dst/big".to_string(), 600),
        ]
    );
    assert_eq!(tree, expected(&sources));
}

#[test]
fn a_run_without_memory_for_a_chunk_reports_no_progress() {
    let sources = vec![directory("/d"), file("/d/big", 10, 1)];
    let mut tree = BTreeMap::new();
    let outcome = replicate(Config::new(100, 0), &sources, vec![100], &mut tree);
    assert_eq!(outcome, Err(ChunkError::NoProgress));
    assert_eq!(tree.get("/dst/d"), Some(&Node::Directory));
    assert_eq!(tree.get("/dst/d/big"), None);
}

#[test]
fn an_empty_file_arrives_even_without_memory_for_a_chunk() {
    let sources = vec![file("/empty", 0, 1)];
    let mut tree = BTreeMap::new();
    let events = replicate(Config::new(100, 0), &sources, vec![50], &mut tree).unwrap();
    assert_eq!(events, vec![Event::Truncate("/dst/empty".to_string())]);
    assert_eq!(tree.get("/dst/empty"), Some(&Node::File(Vec::new())));
}

#[test]
fn buffered_bytes_and_margin_stay_within_live_headroom() {
    let config = Config::new(100, 0);
    let headroom: u64 = 1000;
    let sizes = [300u64, 250, 200, 400, 50, 600];
    let mut run = Replicator::new(config, "/dst".to_string());
    let mut held: u64 = 0;
    for (index, size) in sizes.iter().enumerate() {
        let entry = Entry::from_walk(format!("/src/f{}", index), "/src", false, *size);
        if !run.prepare_with(*size, headroom - held).is_empty() || run.buffered_files() == 0 {
            held = 0;
        }
        if run.route_with(&entry, headroom - held) == Route::Buffer {
            run.accept_file(entry.relative_path, vec![0; *size as usize]);
            held += size;
        }
        assert!(held == 0 || held + config.margin_bytes <= headroom);
    }
    assert_eq!(run.deferred_files(), 0);
}

#[test]
fn a_flush_makes_missing_ancestors() {
    let mut run = Replicator::new(Config::new(100, 0), "/dst".to_string());
    run.accept_directory("".to_string());
    run.accept_directory("/a/b/c".to_string());
    let (ops, _) = run.finish();
    assert_eq!(
        ops,
        vec![
            FsOp::CreateDir { path: "/dst".to_string() },
            FsOp::CreateDir { path: "/dst/a/b/c".to_string() },
        ]
    );
    assert_eq!(run.pending_directories(), 0);
    let mut tree = BTreeMap::new();
    carry_out(ops, &mut tree, &mut Vec::new());
    let made: Vec<&str> = tree.keys().map(|k| k.as_str()).collect();
    assert_eq!(made, vec!["/dst", "/dst/a", "/dst/a/b", "/dst/a/b/c"]);
    assert!(tree.values().all(|node| *node == Node::Directory));
}

#[test]
fn an_ancestor_that_is_there_is_left_as_it_is() {
    let mut run = Replicator::new(Config::new(100, 0), "/dst".to_string());
    run.accept_directory("/a/b".to_string());
    let (ops, _) = run.finish();
    let mut tree = BTreeMap::new();
    tree.insert("/dst".to_string(), Node::Directory);
    tree.insert("/dst/a".to_string(), Node::File(vec![1]));
    carry_out(ops, &mut tree, &mut Vec::new());
    assert_eq!(tree.get("/dst/a"), Some(&Node::File(vec![1])));
    assert_eq!(tree.get("/dst/a/b"), Some(&Node::Directory));
    assert_eq!(tree.len(), 3);
}

#[test]
fn a_walk_without_some_directories_still_leaves_their_places() {
    let sources = vec![directory("/x/y/z"), file("/x/y/z/f", 3, 1)];
    let mut tree = BTreeMap::new();
    replicate(Config::new(0, 0), &sources, vec![1000], &mut tree).unwrap();
    assert_eq!(tree.get("/dst"), Some(&Node::Directory));
    assert_eq!(tree.get("/dst/x"), Some(&Node::Directory));
    assert_eq!(tree.get("/dst/x/y"), Some(&Node::Directory));
    assert_eq!(tree.get("/dst/x/y/z"), Some(&Node::Directory));
    assert_eq!(tree.get("/dst/x/y/z/f"), Some(&Node::File(vec![1, 2, 3])));
    let once = tree.clone();
    replicate(Config::new(0, 0), &sources, vec![1], &mut tree).unwrap();
    assert_eq!(tree, once);
}
