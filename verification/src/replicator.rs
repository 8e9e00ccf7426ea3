//! The traversal orchestrator: one pass over the entries of a source tree.
//!
//! A `Replicator` owns the batch buffer and the list of files deferred to
//! chunked replication. The caller walks the source tree and, for each entry,
//! asks the replicator what to do; the replicator answers with operations on
//! the destination and with the route a file takes. For a file the order is
//! `prepare`, carry out the operations, `route`, and, where the route is
//! `Route::Buffer`, read the file and `accept_file`. After the last entry
//! comes `finish`.

use crate::buffer::{distinct_paths, BatchBuffer, BatchModel};
use crate::config::Config;
use crate::effect::{effects_of, Effect, FsOp};
use crate::oracle::MemoryOracle;
use crate::paths::{relative_of, relative_path};
use vstd::prelude::*;

verus! {

/// An entry of the source tree as plain values.
pub struct EntryModel {
    pub absolute_path: Seq<char>,
    pub relative_path: Seq<char>,
    pub is_directory: bool,
    pub size_bytes: u64,
}

/// One entry of the source tree, as the walk yields it.
#[derive(Debug, PartialEq, Eq)]
pub struct Entry {
    pub absolute_path: String,
    pub relative_path: String,
    pub is_directory: bool,
    pub size_bytes: u64,
}

impl View for Entry {
    type V = EntryModel;

    open spec fn view(&self) -> EntryModel {
        EntryModel {
            absolute_path: self.absolute_path@,
            relative_path: self.relative_path@,
            is_directory: self.is_directory,
            size_bytes: self.size_bytes,
        }
    }
}

impl Entry {
    /// The entry for a walked path: its relative path is derived from the
    /// absolute path and the source root.
    pub fn from_walk(
        absolute_path: String,
        source_root: &str,
        is_directory: bool,
        size_bytes: u64,
    ) -> (entry: Entry)
        ensures
            entry@ == (EntryModel {
                absolute_path: absolute_path@,
                relative_path: relative_of(absolute_path@, source_root@),
                is_directory,
                size_bytes,
            }),
    {
        let relative_path = relative_path(absolute_path.as_str(), source_root);
        Entry { absolute_path, relative_path, is_directory, size_bytes }
    }
}

/// A deferred file as plain values.
pub struct BigFileModel {
    pub absolute_path: Seq<char>,
    pub relative_path: Seq<char>,
    pub size_bytes: u64,
}

/// A file deferred to chunked replication.
#[derive(Debug, PartialEq, Eq)]
pub struct BigFile {
    pub absolute_path: String,
    pub relative_path: String,
    pub size_bytes: u64,
}

impl View for BigFile {
    type V = BigFileModel;

    open spec fn view(&self) -> BigFileModel {
        BigFileModel {
            absolute_path: self.absolute_path@,
            relative_path: self.relative_path@,
            size_bytes: self.size_bytes,
        }
    }
}

/// The deferred files of a list, as plain values.
pub open spec fn big_files_of(files: Seq<BigFile>) -> Seq<BigFileModel> {
    files.map_values(|f: BigFile| f@)
}

/// The way a file takes to the destination.
#[derive(Clone, Copy, Debug, PartialEq, Eq, Structural)]
pub enum Route {
    /// Read the file whole and hand its bytes to `accept_file`.
    Buffer,
    /// The file has been put on the list for chunked replication.
    Chunked,
}

/// The state of a run as plain values.
pub struct ReplicatorModel {
    pub config: Config,
    pub root: Seq<char>,
    pub batch: BatchModel,
    pub big_files: Seq<BigFileModel>,
}

impl ReplicatorModel {
    /// The state before the first entry.
    pub open spec fn initial(config: Config, root: Seq<char>) -> ReplicatorModel {
        ReplicatorModel { config, root, batch: BatchModel::empty(), big_files: Seq::empty() }
    }

    /// The state after a directory entry.
    pub open spec fn with_directory(self, path: Seq<char>) -> ReplicatorModel {
        ReplicatorModel { batch: self.batch.with_directory(path), ..self }
    }

    /// What the flush check before a file does to the destination: where
    /// free memory is below the margin plus the file's size, everything
    /// pending is flushed; else nothing happens.
    pub open spec fn prepare_effects(self, entry_size: u64, free_memory: u64) -> Seq<Effect> {
        if self.config.flush_needed(free_memory, entry_size) {
            self.batch.flush_effects(self.root)
        } else {
            Seq::empty()
        }
    }

    /// The state after the flush check before a file.
    pub open spec fn prepared(self, entry_size: u64, free_memory: u64) -> ReplicatorModel {
        if self.config.flush_needed(free_memory, entry_size) {
            ReplicatorModel { batch: BatchModel::empty(), ..self }
        } else {
            self
        }
    }

    /// The route of a file of `entry_size` bytes.
    pub open spec fn route(self, entry_size: u64, free_memory: u64) -> Route {
        if self.config.may_buffer(free_memory, entry_size) {
            Route::Buffer
        } else {
            Route::Chunked
        }
    }

    /// The state after a file has been routed: one that cannot be buffered
    /// joins the deferred files, at the end.
    pub open spec fn routed(self, entry: EntryModel, free_memory: u64) -> ReplicatorModel {
        if self.config.may_buffer(free_memory, entry.size_bytes) {
            self
        } else {
            ReplicatorModel {
                big_files: self.big_files.push(
                    BigFileModel {
                        absolute_path: entry.absolute_path,
                        relative_path: entry.relative_path,
                        size_bytes: entry.size_bytes,
                    },
                ),
                ..self
            }
        }
    }

    /// The state after the content of a file has been buffered.
    pub open spec fn with_file(self, path: Seq<char>, content: Seq<u8>) -> ReplicatorModel {
        ReplicatorModel { batch: self.batch.with_file(path, content), ..self }
    }

    /// The state after the run has been finished: nothing is pending and
    /// nothing is deferred.
    pub open spec fn finished(self) -> ReplicatorModel {
        ReplicatorModel { batch: BatchModel::empty(), big_files: Seq::empty(), ..self }
    }
}

/// The state of one replication run.
#[derive(Debug)]
pub struct Replicator {
    config: Config,
    destination_root: String,
    buffer: BatchBuffer,
    big_files: Vec<BigFile>,
}

impl View for Replicator {
    type V = ReplicatorModel;

    closed spec fn view(&self) -> ReplicatorModel {
        ReplicatorModel {
            config: self.config,
            root: self.destination_root@,
            batch: self.buffer@,
            big_files: big_files_of(self.big_files@),
        }
    }
}

impl Replicator {
    /// A run that replicates to `destination_root`, which stands without a
    /// trailing separator.
    pub fn new(config: Config, destination_root: String) -> (replicator: Replicator)
        ensures
            replicator@ == ReplicatorModel::initial(config, destination_root@),
    {
        let replicator = Replicator {
            config,
            destination_root,
            buffer: BatchBuffer::new(),
            big_files: Vec::new(),
        };
        assert(replicator@.big_files =~= Seq::empty());
        replicator
    }

    /// The configuration of the run.
    pub fn config(&self) -> (config: Config)
        ensures
            config == self@.config,
    {
        self.config
    }

    /// The destination root of the run.
    pub fn destination_root(&self) -> (root: &str)
        ensures
            root@ == self@.root,
    {
        self.destination_root.as_str()
    }

    /// The number of directories waiting for the next flush.
    pub fn pending_directories(&self) -> (count: usize)
        ensures
            count == self@.batch.directories.len(),
    {
        self.buffer.directory_count()
    }

    /// The number of files waiting in memory for the next flush, each under
    /// a path of its own.
    pub fn buffered_files(&self) -> (count: usize)
        ensures
            count == self@.batch.files.len(),
            distinct_paths(self@.batch.files),
    {
        self.buffer.file_count()
    }

    /// The number of files deferred to chunked replication.
    pub fn deferred_files(&self) -> (count: usize)
        ensures
            count == self@.big_files.len(),
    {
        self.big_files.len()
    }

    /// Handles a directory entry: the directory is made at the next flush.
    pub fn accept_directory(&mut self, relative_path: String)
        ensures
            final(self)@ == old(self)@.with_directory(relative_path@),
    {
        self.buffer.accept_directory(relative_path);
    }

    /// The flush check before a file of `entry_size` bytes, for a given
    /// free-memory reading. Where the reading is below the margin plus the
    /// size, everything pending leaves the buffer and is returned as
    /// operations, directories first; the caller carries them out before it
    /// goes on. Else nothing is returned and nothing changes.
    pub fn prepare_with(&mut self, entry_size: u64, free_memory: u64) -> (ops: Vec<FsOp>)
        ensures
            effects_of(ops@) == old(self)@.prepare_effects(entry_size, free_memory),
            final(self)@ == old(self)@.prepared(entry_size, free_memory),
    {
        if self.config.should_flush_before(free_memory, entry_size) {
            let root = self.destination_root.clone();
            self.buffer.flush(root.as_str())
        } else {
            let ops: Vec<FsOp> = Vec::new();
            assert(effects_of(ops@) =~= Seq::empty());
            ops
        }
    }

    /// The flush check before a file of `entry_size` bytes, on a fresh
    /// free-memory reading.
    pub fn prepare(&mut self, entry_size: u64, oracle: &mut MemoryOracle) -> (ops: Vec<FsOp>)
        ensures
            *final(oracle) == old(oracle).advanced(),
            exists|free: u64|
                {
                    &&& #[trigger] old(oracle).admits(free)
                    &&& effects_of(ops@) == old(self)@.prepare_effects(entry_size, free)
                    &&& final(self)@ == old(self)@.prepared(entry_size, free)
                },
    {
        let free = oracle.free_memory();
        self.prepare_with(entry_size, free)
    }

    /// Routes a file for a given free-memory reading. A file that fits into
    /// memory beyond the margin, and does not exceed a nonzero size limit, is
    /// to be buffered; any other joins the deferred files and is not read
    /// yet.
    pub fn route_with(&mut self, entry: &Entry, free_memory: u64) -> (route: Route)
        ensures
            route == old(self)@.route(entry.size_bytes, free_memory),
            final(self)@ == old(self)@.routed(entry@, free_memory),
            route == Route::Buffer ==> entry.size_bytes + old(self)@.config.margin_bytes
                <= free_memory,
            old(self)@.config.file_size_limit != 0 && entry.size_bytes > old(
                self,
            )@.config.file_size_limit ==> route == Route::Chunked,
    {
        if self.config.should_buffer(free_memory, entry.size_bytes) {
            Route::Buffer
        } else {
            let ghost before = self.big_files@;
            let file = BigFile {
                absolute_path: entry.absolute_path.clone(),
                relative_path: entry.relative_path.clone(),
                size_bytes: entry.size_bytes,
            };
            self.big_files.push(file);
            assert(big_files_of(self.big_files@) =~= big_files_of(before).push(file@));
            Route::Chunked
        }
    }

    /// Routes a file on a fresh free-memory reading.
    pub fn route(&mut self, entry: &Entry, oracle: &mut MemoryOracle) -> (route: Route)
        ensures
            *final(oracle) == old(oracle).advanced(),
            exists|free: u64|
                {
                    &&& #[trigger] old(oracle).admits(free)
                    &&& route == old(self)@.route(entry.size_bytes, free)
                    &&& final(self)@ == old(self)@.routed(entry@, free)
                },
            old(self)@.config.file_size_limit != 0 && entry.size_bytes > old(
                self,
            )@.config.file_size_limit ==> route == Route::Chunked,
    {
        let free = oracle.free_memory();
        self.route_with(entry, free)
    }

    /// Buffers the content of a file that was routed to the buffer.
    pub fn accept_file(&mut self, relative_path: String, content: Vec<u8>)
        ensures
            final(self)@ == old(self)@.with_file(relative_path@, content@),
    {
        self.buffer.accept_file(relative_path, content);
    }

    /// Ends the traversal: what is still pending is returned as operations,
    /// directories first, together with the deferred files in the order in
    /// which they were met. The caller carries out the operations and then
    /// replicates the deferred files in chunks, one after the other.
    pub fn finish(&mut self) -> (last: (Vec<FsOp>, Vec<BigFile>))
        ensures
            effects_of(last.0@) == old(self)@.batch.flush_effects(old(self)@.root),
            big_files_of(last.1@) == old(self)@.big_files,
            final(self)@ == old(self)@.finished(),
    {
        let root = self.destination_root.clone();
        let ops = self.buffer.flush(root.as_str());
        let mut big_files: Vec<BigFile> = Vec::new();
        std::mem::swap(&mut self.big_files, &mut big_files);
        assert(big_files_of(self.big_files@) =~= Seq::empty());
        (ops, big_files)
    }
}

} // verus!
