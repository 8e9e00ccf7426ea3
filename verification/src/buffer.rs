//! The batch buffer: directories and file contents held in memory until the
//! next flush.

use crate::effect::{
    apply_all, effects_of, is_ancestor, lemma_apply_all_concat, lemma_directories_are_made,
    lemma_presence_is_kept, lookup, Effect, FsOp, Node, Tree,
};
use crate::paths::destination_path;
use vstd::prelude::*;

verus! {

/// A buffered file as plain values: its relative path and its bytes.
pub type FileModel = (Seq<char>, Seq<u8>);

/// The place of the first buffered file with the path; the number of files
/// when none has it.
pub open spec fn slot_of(files: Seq<FileModel>, path: Seq<char>) -> int
    decreases files.len(),
{
    if files.len() == 0 {
        0
    } else if files[0].0 == path {
        0
    } else {
        1 + slot_of(files.drop_first(), path)
    }
}

/// Whether some buffered file has the path.
pub open spec fn holds(files: Seq<FileModel>, path: Seq<char>) -> bool {
    slot_of(files, path) < files.len()
}

/// No path is buffered twice.
pub open spec fn distinct_paths(files: Seq<FileModel>) -> bool {
    forall|i: int, j: int|
        0 <= i < j < files.len() ==> (#[trigger] files[i]).0 != (#[trigger] files[j]).0
}

/// The files after one more is buffered: a file whose path is already held
/// gives way to the new content and keeps its place; any other is added at
/// the end.
pub open spec fn put(files: Seq<FileModel>, path: Seq<char>, content: Seq<u8>) -> Seq<FileModel> {
    if holds(files, path) {
        files.update(slot_of(files, path), (path, content))
    } else {
        files.push((path, content))
    }
}

/// The bytes buffered for a path, if any.
pub open spec fn content_of(files: Seq<FileModel>, path: Seq<char>) -> Option<Seq<u8>> {
    if holds(files, path) {
        Some(files[slot_of(files, path)].1)
    } else {
        None
    }
}

/// The number of bytes that the files hold together.
pub open spec fn total_bytes(files: Seq<FileModel>) -> nat
    decreases files.len(),
{
    if files.len() == 0 {
        0
    } else {
        total_bytes(files.drop_last()) + files.last().1.len()
    }
}

/// What a batch holds, as plain values.
pub struct BatchModel {
    /// Pending directories, in the order they were accepted.
    pub directories: Seq<Seq<char>>,
    /// Buffered files, in the order their paths were first accepted.
    pub files: Seq<FileModel>,
}

impl BatchModel {
    /// The batch that holds nothing.
    pub open spec fn empty() -> BatchModel {
        BatchModel { directories: Seq::empty(), files: Seq::empty() }
    }

    /// Whether the batch holds nothing.
    pub open spec fn is_empty(self) -> bool {
        self.directories.len() == 0 && self.files.len() == 0
    }

    /// The batch with one more pending directory.
    pub open spec fn with_directory(self, path: Seq<char>) -> BatchModel {
        BatchModel { directories: self.directories.push(path), ..self }
    }

    /// The batch with one more buffered file; the last write to a path wins.
    pub open spec fn with_file(self, path: Seq<char>, content: Seq<u8>) -> BatchModel {
        BatchModel { files: put(self.files, path, content), ..self }
    }

    /// The directory part of a flush under `root`: every pending directory
    /// is made, in order, at the root with its relative path appended, and
    /// with it every ancestor that is missing.
    pub open spec fn directory_effects(self, root: Seq<char>) -> Seq<Effect> {
        self.directories.map_values(|d: Seq<char>| Effect::MakeDir(root + d))
    }

    /// The file part of a flush under `root`: every buffered file is
    /// written, in order, at the root with its relative path appended.
    pub open spec fn file_effects(self, root: Seq<char>) -> Seq<Effect> {
        self.files.map_values(|f: FileModel| Effect::WriteWhole(root + f.0, f.1))
    }

    /// What flushing the batch under `root` does to the destination: the
    /// directory part, and then the file part.
    pub open spec fn flush_effects(self, root: Seq<char>) -> Seq<Effect> {
        self.directory_effects(root) + self.file_effects(root)
    }
}

/// `slot_of` finds the first file with the path, and only that.
pub proof fn lemma_slot_of(files: Seq<FileModel>, path: Seq<char>)
    ensures
        0 <= slot_of(files, path) <= files.len(),
        holds(files, path) ==> files[slot_of(files, path)].0 == path,
        forall|k: int| 0 <= k < slot_of(files, path) ==> (#[trigger] files[k]).0 != path,
    decreases files.len(),
{
    if files.len() > 0 && files[0].0 != path {
        let rest = files.drop_first();
        lemma_slot_of(rest, path);
        assert forall|k: int| 0 <= k < slot_of(files, path) implies (#[trigger] files[k]).0
            != path by {
            if k > 0 {
                assert(rest[k - 1] == files[k]);
            }
        }
    }
}

/// The first place at which the path stands is its slot.
pub proof fn lemma_slot_is_first(files: Seq<FileModel>, path: Seq<char>, at: int)
    requires
        0 <= at <= files.len(),
        at < files.len() ==> files[at].0 == path,
        forall|k: int| 0 <= k < at ==> (#[trigger] files[k]).0 != path,
    ensures
        slot_of(files, path) == at,
{
    lemma_slot_of(files, path);
    let slot = slot_of(files, path);
    if slot < at {
        assert(files[slot].0 != path);
    }
}

/// Buffering a file makes its path hold the new content and leaves every
/// other path as it was: the buffer is a mapping from paths to contents. No
/// path comes to stand in it twice.
pub proof fn lemma_put_is_insert(
    files: Seq<FileModel>,
    path: Seq<char>,
    content: Seq<u8>,
    other: Seq<char>,
)
    ensures
        content_of(put(files, path, content), path) == Some(content),
        other != path ==> content_of(put(files, path, content), other) == content_of(files, other),
        holds(put(files, path, content), other) <==> other == path || holds(files, other),
        distinct_paths(files) ==> distinct_paths(put(files, path, content)),
{
    let after = put(files, path, content);
    let at = slot_of(files, path);
    lemma_slot_of(files, path);
    assert(after[at] == (path, content));
    lemma_slot_is_first(after, path, at);
    lemma_slot_of(files, other);
    if other != path {
        let k = slot_of(files, other);
        assert(k != at || k == files.len());
        if k < files.len() {
            lemma_slot_is_first(after, other, k);
        } else {
            assert forall|i: int| 0 <= i < after.len() implies (#[trigger] after[i]).0 != other by {
                if i != at {
                    assert(after[i] == files[i]);
                }
            }
            lemma_slot_is_first(after, other, after.len() as int);
        }
    }
    if distinct_paths(files) {
        assert forall|i: int, j: int| 0 <= i < j < after.len() implies (#[trigger] after[i]).0 != (
        #[trigger] after[j]).0 by {
            if i != at && j != at {
                assert(files[i].0 != files[j].0);
            } else if i == at {
                assert(after[j] == files[j]);
                if at < files.len() {
                    assert(files[at].0 != files[j].0);
                }
            } else {
                assert(after[i] == files[i]);
            }
        }
    }
}

/// Replacing the file at one place changes the total by the difference of
/// the two contents.
proof fn lemma_total_bytes_update(files: Seq<FileModel>, at: int, file: FileModel)
    requires
        0 <= at < files.len(),
    ensures
        total_bytes(files.update(at, file)) + files[at].1.len() == total_bytes(files)
            + file.1.len(),
    decreases files.len(),
{
    let after = files.update(at, file);
    if at == files.len() - 1 {
        assert(after.drop_last() =~= files.drop_last());
    } else {
        lemma_total_bytes_update(files.drop_last(), at, file);
        assert(after.drop_last() =~= files.drop_last().update(at, file));
    }
}

/// Buffering a file adds at most its own bytes to what the buffer holds, and
/// exactly those where its path was not held before.
pub proof fn lemma_put_adds_at_most(files: Seq<FileModel>, path: Seq<char>, content: Seq<u8>)
    ensures
        total_bytes(put(files, path, content)) <= total_bytes(files) + content.len(),
        !holds(files, path) ==> total_bytes(put(files, path, content)) == total_bytes(files)
            + content.len(),
{
    lemma_slot_of(files, path);
    if holds(files, path) {
        lemma_total_bytes_update(files, slot_of(files, path), (path, content));
    } else {
        assert(files.push((path, content)).drop_last() =~= files);
    }
}

/// A flush makes every pending directory before it writes any buffered file.
pub proof fn lemma_flush_makes_directories_first(batch: BatchModel, root: Seq<char>)
    ensures
        batch.flush_effects(root).len() == batch.directories.len() + batch.files.len(),
        forall|i: int|
            0 <= i < batch.directories.len() ==> #[trigger] batch.flush_effects(root)[i]
                == Effect::MakeDir(root + batch.directories[i]),
        forall|i: int|
            0 <= i < batch.files.len() ==> #[trigger] batch.flush_effects(root)[batch.directories.len()
                + i] == Effect::WriteWhole(root + batch.files[i].0, batch.files[i].1),
        forall|i: int, j: int|
            0 <= i < batch.flush_effects(root).len() && 0 <= j < batch.flush_effects(root).len()
                && batch.flush_effects(root)[i] is MakeDir && batch.flush_effects(root)[j]
                is WriteWhole ==> i < j,
{
}

/// A flush makes every pending directory and all its missing ancestors.
/// After the directory part, each pending directory is a directory at the
/// destination, and so is every ancestor of it that was missing; an ancestor
/// that was there is still there. After the whole flush no ancestor is
/// missing either.
pub proof fn lemma_flush_makes_ancestors(
    tree: Tree,
    batch: BatchModel,
    root: Seq<char>,
    x: int,
    ancestor: Seq<char>,
)
    requires
        0 <= x < batch.directories.len(),
        is_ancestor(ancestor, root + batch.directories[x]),
    ensures
        lookup(apply_all(tree, batch.directory_effects(root)), root + batch.directories[x])
            == Some(Node::Directory),
        lookup(apply_all(tree, batch.directory_effects(root)), ancestor) is Some,
        lookup(tree, ancestor) is None ==> lookup(
            apply_all(tree, batch.directory_effects(root)),
            ancestor,
        ) == Some(Node::Directory),
        lookup(apply_all(tree, batch.flush_effects(root)), root + batch.directories[x]) is Some,
        lookup(apply_all(tree, batch.flush_effects(root)), ancestor) is Some,
{
    let made = batch.directory_effects(root);
    lemma_directories_are_made(tree, made, x, ancestor);
    lemma_apply_all_concat(tree, made, batch.file_effects(root));
    let reached = apply_all(tree, made);
    lemma_presence_is_kept(reached, batch.file_effects(root), root + batch.directories[x]);
    lemma_presence_is_kept(reached, batch.file_effects(root), ancestor);
}

/// A file held in the buffer.
#[derive(Debug)]
struct BufferedFile {
    relative_path: String,
    content: Vec<u8>,
}

/// Directories and file contents accepted since the last flush.
#[derive(Debug)]
pub struct BatchBuffer {
    directories: Vec<String>,
    files: Vec<BufferedFile>,
}

impl View for BatchBuffer {
    type V = BatchModel;

    closed spec fn view(&self) -> BatchModel {
        BatchModel {
            directories: self.directories@.map_values(|d: String| d@),
            files: self.files@.map_values(|f: BufferedFile| (f.relative_path@, f.content@)),
        }
    }
}

impl BatchBuffer {
    #[verifier::type_invariant]
    spec fn well_formed(self) -> bool {
        distinct_paths(self@.files)
    }

    /// The buffer that holds nothing.
    pub fn new() -> (buffer: BatchBuffer)
        ensures
            buffer@ == BatchModel::empty(),
    {
        let buffer = BatchBuffer { directories: Vec::new(), files: Vec::new() };
        assert(buffer@.directories =~= Seq::empty());
        assert(buffer@.files =~= Seq::empty());
        buffer
    }

    /// Whether nothing is pending.
    pub fn is_empty(&self) -> (empty: bool)
        ensures
            empty == self@.is_empty(),
    {
        self.directories.len() == 0 && self.files.len() == 0
    }

    /// The number of pending directories.
    pub fn directory_count(&self) -> (count: usize)
        ensures
            count == self@.directories.len(),
    {
        self.directories.len()
    }

    /// The number of buffered files, each under a path of its own.
    pub fn file_count(&self) -> (count: usize)
        ensures
            count == self@.files.len(),
            distinct_paths(self@.files),
    {
        proof {
            use_type_invariant(self);
        }
        self.files.len()
    }

    /// Adds a directory to the pending list.
    pub fn accept_directory(&mut self, relative_path: String)
        ensures
            final(self)@ == old(self)@.with_directory(relative_path@),
    {
        proof {
            use_type_invariant(&*self);
        }
        // The list is taken out, grown and put back: the buffer is whole at
        // every call that could unwind.
        let mut directories: Vec<String> = Vec::new();
        std::mem::swap(&mut self.directories, &mut directories);
        directories.push(relative_path);
        std::mem::swap(&mut self.directories, &mut directories);
        assert(self@.directories =~= old(self)@.directories.push(relative_path@));
    }

    /// Buffers the content of a file. A path that is buffered already gets
    /// the new content in place of the old.
    pub fn accept_file(&mut self, relative_path: String, content: Vec<u8>)
        ensures
            final(self)@ == old(self)@.with_file(relative_path@, content@),
            distinct_paths(final(self)@.files),
    {
        let ghost before = old(self)@.files;
        proof {
            use_type_invariant(&*self);
            lemma_put_is_insert(before, relative_path@, content@, relative_path@);
        }
        let mut files: Vec<BufferedFile> = Vec::new();
        std::mem::swap(&mut self.files, &mut files);
        let ghost held = files@;
        assert(before =~= held.map_values(|f: BufferedFile| (f.relative_path@, f.content@)));
        let mut i: usize = 0;
        while i < files.len() && files[i].relative_path != relative_path
            invariant
                files@ == held,
                before == held.map_values(|f: BufferedFile| (f.relative_path@, f.content@)),
                i <= files.len(),
                forall|k: int| 0 <= k < i ==> (#[trigger] before[k]).0 != relative_path@,
            decreases files.len() - i,
        {
            i = i + 1;
        }
        proof {
            lemma_slot_is_first(before, relative_path@, i as int);
        }
        if i < files.len() {
            files.set(i, BufferedFile { relative_path, content });
        } else {
            files.push(BufferedFile { relative_path, content });
        }
        assert(files@.map_values(|f: BufferedFile| (f.relative_path@, f.content@)) =~= put(
            before,
            relative_path@,
            content@,
        ));
        std::mem::swap(&mut self.files, &mut files);
    }

    /// Empties the buffer into a plan for the destination under
    /// `destination_root`: first one operation per pending directory, then
    /// one per buffered file, each in the order of acceptance.
    pub fn flush(&mut self, destination_root: &str) -> (ops: Vec<FsOp>)
        ensures
            effects_of(ops@) == old(self)@.flush_effects(destination_root@),
            final(self)@ == BatchModel::empty(),
    {
        let ghost root = destination_root@;
        let ghost batch = old(self)@;
        proof {
            use_type_invariant(&*self);
        }
        let mut directories: Vec<String> = Vec::new();
        let mut files: Vec<BufferedFile> = Vec::new();
        std::mem::swap(&mut self.directories, &mut directories);
        std::mem::swap(&mut self.files, &mut files);
        assert(self@.directories =~= Seq::empty());
        assert(self@.files =~= Seq::empty());
        assert(batch.directories =~= directories@.map_values(|d: String| d@));
        let mut ops: Vec<FsOp> = Vec::new();
        let mut i: usize = 0;
        while i < directories.len()
            invariant
                batch.directories == directories@.map_values(|d: String| d@),
                root == destination_root@,
                i <= directories.len(),
                effects_of(ops@) == batch.directories.take(i as int).map_values(
                    |d: Seq<char>| Effect::MakeDir(root + d),
                ),
            decreases directories.len() - i,
        {
            let ghost planned = ops@;
            let path = destination_path(destination_root, directories[i].as_str());
            assert(path@ == root + batch.directories[i as int]);
            ops.push(FsOp::CreateDir { path });
            assert(effects_of(ops@) =~= effects_of(planned).push(Effect::MakeDir(path@)));
            i = i + 1;
            assert(effects_of(ops@) =~= batch.directories.take(i as int).map_values(
                |d: Seq<char>| Effect::MakeDir(root + d),
            ));
        }
        assert(batch.directories.take(i as int) =~= batch.directories);
        let ghost made = effects_of(ops@);
        let ghost held = files@;
        assert(batch.files =~= held.map_values(|f: BufferedFile| (f.relative_path@, f.content@)));
        for file in it: files
            invariant
                it.seq() == held,
                batch.files == held.map_values(|f: BufferedFile| (f.relative_path@, f.content@)),
                root == destination_root@,
                effects_of(ops@) == made + batch.files.take(it.index() as int).map_values(
                    |f: FileModel| Effect::WriteWhole(root + f.0, f.1),
                ),
        {
            let ghost planned = ops@;
            assert(batch.files[it.index() as int] == (file.relative_path@, file.content@));
            let BufferedFile { relative_path, content } = file;
            let path = destination_path(destination_root, relative_path.as_str());
            ops.push(FsOp::WriteFile { path, content });
            assert(effects_of(ops@) =~= effects_of(planned).push(
                Effect::WriteWhole(path@, content@),
            ));
            assert(effects_of(ops@) =~= made + batch.files.take(it.index() + 1).map_values(
                |f: FileModel| Effect::WriteWhole(root + f.0, f.1),
            ));
        }
        assert(batch.files.take(held.len() as int) =~= batch.files);
        ops
    }
}

} // verus!
