//! A whole run, as plain values, and what holds of every run.
//!
//! A run is a sequence of visits: the entries of the source tree in the order
//! of the walk, each file with its content and with the free-memory readings
//! under which it is handled. The functions here say what a `Replicator`
//! driven over those visits does to the destination, in terms of the steps
//! that its methods promise; the lemmas state what follows for every run.

use crate::buffer::{lemma_put_adds_at_most, total_bytes, FileModel};
use crate::chunk::read_len;
use crate::config::Config;
use crate::consistency::{
    accounted, buffered_at, chunked_by, directories_made_before, file_known,
    lemma_append_effects, lemma_append_effects_paths, lemma_deferred_block,
    lemma_deferred_effects_known, lemma_deferred_is_listed, lemma_directory_is_in_run,
    lemma_earlier_sizes_fit,
    lemma_effects_name_visits, lemma_flush_step, lemma_made_directory_is_visit, lemma_one_visit_per_path, lemma_same_root, lemma_walk_is_consistent,
    made_before, made_by, names_deferred, written_by,
};
use crate::effect::{
    apply_all, is_ancestor, lemma_ancestor_is_present, lemma_apply_all_concat, lemma_kept_path,
    lemma_settled_path, lemma_untouched_path, lookup, Effect, Node, Tree,
};
use crate::replicator::{BigFileModel, EntryModel, ReplicatorModel, Route};
use vstd::prelude::*;

verus! {

/// A file of the source tree and the readings under which it is handled.
pub struct FileVisit {
    pub absolute_path: Seq<char>,
    pub relative_path: Seq<char>,
    /// The bytes of the file.
    pub content: Seq<u8>,
    /// Free memory at the flush check before the file.
    pub flush_reading: u64,
    /// Free memory when the file is routed.
    pub route_reading: u64,
    /// Free memory when the chunks of the file are sized, should it be
    /// deferred.
    pub chunk_reading: u64,
}

impl FileVisit {
    /// The size of the file.
    pub open spec fn size(self) -> u64 {
        self.content.len() as u64
    }

    /// The file as an entry of the walk.
    pub open spec fn entry(self) -> EntryModel {
        EntryModel {
            absolute_path: self.absolute_path,
            relative_path: self.relative_path,
            is_directory: false,
            size_bytes: self.size(),
        }
    }

    /// The file as a deferred file.
    pub open spec fn deferred(self) -> BigFileModel {
        BigFileModel {
            absolute_path: self.absolute_path,
            relative_path: self.relative_path,
            size_bytes: self.size(),
        }
    }
}

/// One entry of the source tree as it is met on the walk.
pub enum Visit {
    Directory(Seq<char>),
    File(FileVisit),
}

impl Visit {
    /// The relative path of the entry.
    pub open spec fn path(self) -> Seq<char> {
        match self {
            Visit::Directory(path) => path,
            Visit::File(file) => file.relative_path,
        }
    }

    /// Whether the entry is a file that is buffered.
    pub open spec fn is_buffered(self, config: Config) -> bool {
        self matches Visit::File(file) && config.may_buffer(file.route_reading, file.size())
    }

    /// Whether the entry is a file that is deferred to chunked replication.
    pub open spec fn is_deferred(self, config: Config) -> bool {
        self matches Visit::File(file) && !config.may_buffer(file.route_reading, file.size())
    }
}

/// The size of every file among the visits is a number of bytes that `u64`
/// can hold.
pub open spec fn sizes_fit(visits: Seq<Visit>) -> bool {
    forall|i: int|
        0 <= i < visits.len() ==> ((#[trigger] visits[i]) matches Visit::File(file)
            ==> file.content.len() <= u64::MAX)
}

/// The visits of a walk over a source tree: no relative path is met twice,
/// and the sizes of the files fit.
pub open spec fn is_walk(visits: Seq<Visit>) -> bool {
    &&& forall|i: int, j: int|
        0 <= i < j < visits.len() ==> (#[trigger] visits[i]).path() != (#[trigger] visits[j]).path()
    &&& sizes_fit(visits)
}

/// The state after one more visit: a directory is accepted; a file passes
/// the flush check, is routed, and is buffered where its route says so.
pub open spec fn step(state: ReplicatorModel, visit: Visit) -> ReplicatorModel {
    match visit {
        Visit::Directory(path) => state.with_directory(path),
        Visit::File(file) => {
            let prepared = state.prepared(file.size(), file.flush_reading);
            let routed = prepared.routed(file.entry(), file.route_reading);
            if prepared.route(file.size(), file.route_reading) == Route::Buffer {
                routed.with_file(file.relative_path, file.content)
            } else {
                routed
            }
        },
    }
}

/// What one more visit does to the destination: only the flush check before
/// a file can do anything.
pub open spec fn step_effects(state: ReplicatorModel, visit: Visit) -> Seq<Effect> {
    match visit {
        Visit::Directory(_) => Seq::empty(),
        Visit::File(file) => state.prepare_effects(file.size(), file.flush_reading),
    }
}

/// The state after the visits, from the initial state on.
pub open spec fn state_after(config: Config, root: Seq<char>, visits: Seq<Visit>) -> ReplicatorModel
    decreases visits.len(),
{
    if visits.len() == 0 {
        ReplicatorModel::initial(config, root)
    } else {
        step(state_after(config, root, visits.drop_last()), visits.last())
    }
}

/// What the visits do to the destination while the tree is walked.
pub open spec fn effects_during(config: Config, root: Seq<char>, visits: Seq<Visit>) -> Seq<Effect>
    decreases visits.len(),
{
    if visits.len() == 0 {
        Seq::empty()
    } else {
        effects_during(config, root, visits.drop_last()) + step_effects(
            state_after(config, root, visits.drop_last()),
            visits.last(),
        )
    }
}

/// The chunks of `data` from `offset` on, each appended to the file at
/// `path`: every step appends `read_len` bytes, and a step that can read
/// nothing ends the copy.
pub open spec fn append_effects(path: Seq<char>, data: Seq<u8>, chunk_size: nat, offset: nat) -> Seq<
    Effect,
>
    decreases data.len() - offset,
{
    if offset >= data.len() {
        Seq::empty()
    } else {
        let len = read_len(chunk_size, (data.len() - offset) as nat);
        if len == 0 {
            Seq::empty()
        } else {
            seq![Effect::Append(path, data.subrange(offset as int, (offset + len) as int))]
                + append_effects(path, data, chunk_size, offset + len)
        }
    }
}

/// What the chunked replication of one file does to the destination: the
/// file is created empty, and its chunks are appended in order, sized from
/// the reading taken for this file.
pub open spec fn chunk_effects(config: Config, root: Seq<char>, file: FileVisit) -> Seq<Effect> {
    seq![Effect::Truncate(root + file.relative_path)] + append_effects(
        root + file.relative_path,
        file.content,
        config.chunk_limit(file.chunk_reading),
        0,
    )
}

/// What the chunked replication of the deferred files does to the
/// destination, one file after the other in the order of the walk.
pub open spec fn deferred_effects(config: Config, root: Seq<char>, visits: Seq<Visit>) -> Seq<Effect>
    decreases visits.len(),
{
    if visits.len() == 0 {
        Seq::empty()
    } else if visits.last().is_deferred(config) {
        deferred_effects(config, root, visits.drop_last()) + chunk_effects(
            config,
            root,
            visits.last()->File_0,
        )
    } else {
        deferred_effects(config, root, visits.drop_last())
    }
}

/// What a whole run does to the destination: the flushes during the walk,
/// the flush at its end, and then the chunked replication of the deferred
/// files.
pub open spec fn run_effects(config: Config, root: Seq<char>, visits: Seq<Visit>) -> Seq<Effect> {
    effects_during(config, root, visits) + state_after(config, root, visits).batch.flush_effects(
        root,
    ) + deferred_effects(config, root, visits)
}

/// Whether the run comes to its end: every deferred file that has bytes
/// finds memory for a chunk of at least one byte.
pub open spec fn succeeds(config: Config, visits: Seq<Visit>) -> bool {
    forall|i: int|
        0 <= i < visits.len() && (#[trigger] visits[i]).is_deferred(config)
            && visits[i]->File_0.content.len() > 0 ==> config.chunk_limit(
            visits[i]->File_0.chunk_reading,
        ) >= 1
}

/// The chunked replication of a file leaves the file's content at its path,
/// whatever the path held before: chunk by chunk, the bytes of the source
/// arrive in order and complete. A file without bytes is left empty.
pub proof fn lemma_chunked_file_arrives(tree: Tree, config: Config, root: Seq<char>, file: FileVisit)
    requires
        file.content.len() > 0 ==> config.chunk_limit(file.chunk_reading) >= 1,
    ensures
        lookup(apply_all(tree, chunk_effects(config, root, file)), root + file.relative_path)
            == Some(Node::File(file.content)),
        forall|i: int|
            0 <= i < chunk_effects(config, root, file).len() ==> (#[trigger] chunk_effects(
                config,
                root,
                file,
            )[i]).path() == root + file.relative_path,
{
    let path = root + file.relative_path;
    let chunk_size = config.chunk_limit(file.chunk_reading);
    let first = seq![Effect::Truncate(path)];
    let rest = append_effects(path, file.content, chunk_size, 0);
    let next = apply_all(tree, first);
    assert(first.drop_last() =~= Seq::<Effect>::empty());
    assert(first.last() == Effect::Truncate(path));
    assert(apply_all(tree, first.drop_last()) == tree);
    assert(file.content.take(0) =~= Seq::<u8>::empty());
    assert(lookup(next, path) == Some(Node::File(file.content.take(0))));
    lemma_apply_all_concat(tree, first, rest);
    if file.content.len() > 0 {
        lemma_append_effects(next, path, file.content, chunk_size, 0);
    } else {
        assert(file.content =~= Seq::<u8>::empty());
    }
    lemma_append_effects_paths(path, file.content, chunk_size, 0);
}

/// Completeness: after a run that comes to its end, every directory of the
/// source tree is a directory at the same relative path under the
/// destination root, and every file is a file there with the same bytes,
/// whatever the destination held before, whatever the free-memory readings
/// were, and whichever way each file took.
pub proof fn lemma_run_is_complete(
    tree: Tree,
    config: Config,
    root: Seq<char>,
    visits: Seq<Visit>,
    i: int,
)
    requires
        is_walk(visits),
        succeeds(config, visits),
        0 <= i < visits.len(),
    ensures
        lookup(apply_all(tree, run_effects(config, root, visits)), root + visits[i].path())
            == Some(
            match visits[i] {
                Visit::Directory(_) => Node::Directory,
                Visit::File(file) => Node::File(file.content),
            },
        ),
{
    let state = state_after(config, root, visits);
    let walked = effects_during(config, root, visits) + state.batch.flush_effects(root);
    let chunked = deferred_effects(config, root, visits);
    let all = run_effects(config, root, visits);
    let path = root + visits[i].path();
    assert(all == walked + chunked);
    lemma_walk_is_consistent(config, root, visits);
    lemma_flush_step(config, root, visits, state, effects_during(config, root, visits));
    lemma_deferred_effects_known(config, root, visits);
    if visits[i].is_deferred(config) {
        let file = visits[i]->File_0;
        let parts = lemma_deferred_block(config, root, visits, i);
        let block = chunk_effects(config, root, file);
        let first = walked + parts.0;
        assert(all =~= first + block + parts.1);
        lemma_apply_all_concat(tree, first + block, parts.1);
        lemma_apply_all_concat(tree, first, block);
        let reached = apply_all(tree, first);
        lemma_chunked_file_arrives(reached, config, root, file);
        lemma_kept_path(apply_all(reached, block), parts.1, path);
    } else {
        let effect = match visits[i] {
            Visit::Directory(_) => Effect::MakeDir(path),
            Visit::File(file) => Effect::WriteWhole(path, file.content),
        };
        assert(walked.contains(effect));
        let at = choose|b: int| 0 <= b < walked.len() && walked[b] == effect;
        assert(all[at] == effect);
        assert forall|b: int| 0 <= b < all.len() && (#[trigger] all[b]).path()
            == effect.path() implies all[b] == effect by {
            if b < walked.len() {
                assert(all[b] == walked[b]);
                assert(accounted(config, root, visits, walked[b]));
                if exists|k: int| made_by(root, visits, k, walked[b]) {
                    let k = choose|k: int| made_by(root, visits, k, walked[b]);
                    lemma_same_root(root, visits[k].path(), visits[i].path());
                    lemma_one_visit_per_path(visits, k, i);
                } else {
                    let k = choose|k: int| written_by(config, root, visits, k, walked[b]);
                    lemma_same_root(root, visits[k].path(), visits[i].path());
                    lemma_one_visit_per_path(visits, k, i);
                }
            } else {
                let named = chunked[b - walked.len()];
                assert(all[b] == named);
                assert(names_deferred(config, root, visits, named));
                let k = choose|k: int| chunked_by(config, root, visits, k, named);
                lemma_same_root(root, visits[k].path(), visits[i].path());
                lemma_one_visit_per_path(visits, k, i);
            }
        }
        lemma_settled_path(tree, all, effect);
    }
}

/// Flush ordering: in every run, wherever an effect names the path of a
/// file, each directory that the walk met before that file has been made at
/// an earlier place. This holds of the files written at a flush and of the
/// files replicated in chunks alike.
pub proof fn lemma_directories_come_first(
    config: Config,
    root: Seq<char>,
    visits: Seq<Visit>,
    i: int,
    j: int,
    b: int,
)
    requires
        is_walk(visits),
        0 <= i < j < visits.len(),
        visits[i] is Directory,
        visits[j] is File,
        0 <= b < run_effects(config, root, visits).len(),
        run_effects(config, root, visits)[b].path() == root + visits[j].path(),
    ensures
        exists|a: int|
            0 <= a < b && #[trigger] run_effects(config, root, visits)[a] == Effect::MakeDir(
                root + visits[i].path(),
            ),
{
    let state = state_after(config, root, visits);
    let walked = effects_during(config, root, visits) + state.batch.flush_effects(root);
    let chunked = deferred_effects(config, root, visits);
    let all = run_effects(config, root, visits);
    let made = Effect::MakeDir(root + visits[i].path());
    assert(all == walked + chunked);
    lemma_walk_is_consistent(config, root, visits);
    lemma_flush_step(config, root, visits, state, effects_during(config, root, visits));
    if b < walked.len() {
        assert(all[b] == walked[b]);
        assert(directories_made_before(root, visits, j, walked, b));
        assert(made_before(walked, b, root + visits[i].path()));
        let a = choose|a: int| 0 <= a < b && a < walked.len() && #[trigger] walked[a] == made;
        assert(all[a] == made);
    } else {
        assert(walked.contains(made));
        let a = choose|a: int| 0 <= a < walked.len() && walked[a] == made;
        assert(all[a] == made);
    }
}

/// No missing ancestor stays missing: after a run, every ancestor of every
/// directory of the source tree holds something at the destination.
pub proof fn lemma_run_makes_ancestors(
    tree: Tree,
    config: Config,
    root: Seq<char>,
    visits: Seq<Visit>,
    i: int,
    ancestor: Seq<char>,
)
    requires
        is_walk(visits),
        0 <= i < visits.len(),
        visits[i] is Directory,
        is_ancestor(ancestor, root + visits[i].path()),
    ensures
        lookup(apply_all(tree, run_effects(config, root, visits)), ancestor) is Some,
{
    lemma_directory_is_in_run(config, root, visits, i);
    let made = Effect::MakeDir(root + visits[i].path());
    let all = run_effects(config, root, visits);
    let a = choose|a: int| 0 <= a < all.len() && #[trigger] all[a] == made;
    lemma_ancestor_is_present(tree, all, a, ancestor);
}

/// Two walks over the same source tree: the same entries in the same order
/// with the same contents, under free-memory readings that may differ.
pub open spec fn same_source(first: Seq<Visit>, second: Seq<Visit>) -> bool {
    &&& first.len() == second.len()
    &&& forall|i: int|
        0 <= i < first.len() ==> match (#[trigger] first[i], second[i]) {
            (Visit::Directory(a), Visit::Directory(b)) => a == b,
            (Visit::File(a), Visit::File(b)) => a.relative_path == b.relative_path && a.content
                == b.content,
            _ => false,
        }
}

/// Below whatever directory the second of two runs over one source tree
/// makes, the first run has left every ancestor there.
proof fn lemma_first_run_made_ancestors(
    tree: Tree,
    config: Config,
    root: Seq<char>,
    first: Seq<Visit>,
    second: Seq<Visit>,
    b: int,
    ancestor: Seq<char>,
)
    requires
        is_walk(first),
        is_walk(second),
        same_source(first, second),
        0 <= b < run_effects(config, root, second).len(),
        run_effects(config, root, second)[b].makes_below(ancestor),
    ensures
        lookup(apply_all(tree, run_effects(config, root, first)), ancestor) is Some,
{
    let i = lemma_made_directory_is_visit(config, root, second, b);
    assert(first[i].path() == second[i].path());
    lemma_directory_is_in_run(config, root, first, i);
    let made = Effect::MakeDir(root + first[i].path());
    let before = run_effects(config, root, first);
    let a = choose|a: int| 0 <= a < before.len() && #[trigger] before[a] == made;
    lemma_ancestor_is_present(tree, before, a, ancestor);
}

/// Idempotence: a second run over the same source tree leaves the
/// destination as the first run left it, also where the free-memory readings
/// of the two runs differ and the files take other ways.
pub proof fn lemma_second_run_changes_nothing(
    tree: Tree,
    config: Config,
    root: Seq<char>,
    first: Seq<Visit>,
    second: Seq<Visit>,
)
    requires
        is_walk(first),
        is_walk(second),
        same_source(first, second),
        succeeds(config, first),
        succeeds(config, second),
    ensures
        apply_all(
            apply_all(tree, run_effects(config, root, first)),
            run_effects(config, root, second),
        ) == apply_all(tree, run_effects(config, root, first)),
{
    let once = apply_all(tree, run_effects(config, root, first));
    let again = run_effects(config, root, second);
    let twice = apply_all(once, again);
    assert forall|path: Seq<char>| lookup(twice, path) == lookup(once, path) by {
        if exists|i: int| 0 <= i < second.len() && path == root + (#[trigger] second[i]).path() {
            let i = choose|i: int| 0 <= i < second.len() && path == root + (#[trigger] second[i]).path();
            assert(first[i].path() == second[i].path());
            lemma_run_is_complete(tree, config, root, first, i);
            lemma_run_is_complete(once, config, root, second, i);
        } else {
            assert forall|b: int| 0 <= b < again.len() implies (#[trigger] again[b]).path()
                != path by {
                lemma_effects_name_visits(config, root, second, b);
            }
            if lookup(once, path) is Some {
                lemma_kept_path(once, again, path);
            } else {
                assert forall|b: int| 0 <= b < again.len() implies !(
                #[trigger] again[b]).makes_below(path) by {
                    if again[b].makes_below(path) {
                        lemma_first_run_made_ancestors(tree, config, root, first, second, b, path);
                    }
                }
                lemma_untouched_path(once, again, path);
            }
        }
    }
    assert forall|path: Seq<char>| #[trigger] twice.dom().contains(path) == once.dom().contains(
        path,
    ) by {
        assert(lookup(twice, path) == lookup(once, path));
    }
    assert forall|path: Seq<char>| twice.dom().contains(path) implies #[trigger] twice[path]
        == once[path] by {
        assert(lookup(twice, path) == lookup(once, path));
    }
    assert(twice.dom() =~= once.dom());
    assert(twice =~= once);
}

/// Whether `visit` is the file `held`, accepted into the buffer under a
/// free-memory reading that covered its size and the margin, and within a
/// nonzero size limit.
pub open spec fn accepted_within_budget(config: Config, visit: Visit, held: FileModel) -> bool {
    match visit {
        Visit::Directory(_) => false,
        Visit::File(file) => {
            &&& held == (file.relative_path, file.content)
            &&& file.content.len() + config.margin_bytes <= file.route_reading
            &&& config.file_size_limit == 0 || file.content.len() <= config.file_size_limit
        },
    }
}

/// The memory budget at acceptance: whatever the visits and the readings,
/// each file that waits in the buffer was accepted under a free-memory
/// reading that covered its size and the margin.
pub proof fn lemma_buffered_files_fit(config: Config, root: Seq<char>, visits: Seq<Visit>, x: int)
    requires
        is_walk(visits),
        0 <= x < state_after(config, root, visits).batch.files.len(),
    ensures
        exists|j: int|
            0 <= j < visits.len() && accepted_within_budget(
                config,
                #[trigger] visits[j],
                state_after(config, root, visits).batch.files[x],
            ),
{
    lemma_walk_is_consistent(config, root, visits);
    let held = state_after(config, root, visits).batch.files[x];
    assert(file_known(config, visits, held));
    let j = choose|j: int| buffered_at(config, visits, j, held);
    assert(accepted_within_budget(config, visits[j], held));
}

/// Whether the readings of a walk are live within `headroom`: whenever a
/// file is routed, the free memory that is read and the bytes that the
/// buffer holds at that moment do not exceed `headroom` together. This is
/// so where the oracle senses the memory that the buffer itself occupies and
/// `headroom` is the memory that would be free with the buffer empty.
pub open spec fn readings_are_live(
    config: Config,
    root: Seq<char>,
    visits: Seq<Visit>,
    headroom: nat,
) -> bool {
    forall|k: int|
        0 <= k < visits.len() ==> ((#[trigger] visits[k]) matches Visit::File(file) ==> {
            let before = state_after(config, root, visits.take(k));
            file.route_reading + total_bytes(
                before.prepared(file.size(), file.flush_reading).batch.files,
            ) <= headroom
        })
}

/// The memory budget of the buffer as a whole: where the readings are live
/// within `headroom`, the bytes that the buffer holds and the margin never
/// exceed `headroom` together, after any number of visits.
pub proof fn lemma_buffer_stays_within_headroom(
    config: Config,
    root: Seq<char>,
    visits: Seq<Visit>,
    headroom: nat,
)
    requires
        sizes_fit(visits),
        readings_are_live(config, root, visits, headroom),
    ensures
        state_after(config, root, visits).batch.files.len() > 0 ==> total_bytes(
            state_after(config, root, visits).batch.files,
        ) + config.margin_bytes <= headroom,
    decreases visits.len(),
{
    if visits.len() > 0 {
        let earlier = visits.drop_last();
        let last = visits.len() - 1;
        assert(visits.take(last) =~= earlier);
        lemma_earlier_sizes_fit(visits);
        assert forall|k: int| 0 <= k < earlier.len() implies ((
        #[trigger] earlier[k]) matches Visit::File(file) ==> {
            let before = state_after(config, root, earlier.take(k));
            file.route_reading + total_bytes(
                before.prepared(file.size(), file.flush_reading).batch.files,
            ) <= headroom
        }) by {
            assert(earlier[k] == visits[k]);
            assert(earlier.take(k) =~= visits.take(k));
        }
        lemma_buffer_stays_within_headroom(config, root, earlier, headroom);
        lemma_deferred_files_are_listed(config, root, earlier);
        let state = state_after(config, root, earlier);
        match visits[last] {
            Visit::Directory(_) => {},
            Visit::File(file) => {
                let prepared = state.prepared(file.size(), file.flush_reading);
                assert(total_bytes(Seq::<FileModel>::empty()) == 0);
                lemma_put_adds_at_most(prepared.batch.files, file.relative_path, file.content);
            },
        }
    }
}

/// The deferred files among the visits, in the order of the walk.
pub open spec fn deferred_of(config: Config, visits: Seq<Visit>) -> Seq<BigFileModel>
    decreases visits.len(),
{
    if visits.len() == 0 {
        Seq::empty()
    } else if visits.last().is_deferred(config) {
        deferred_of(config, visits.drop_last()).push(visits.last()->File_0.deferred())
    } else {
        deferred_of(config, visits.drop_last())
    }
}

/// The list of deferred files holds exactly the files that could not be
/// buffered, in the order in which the walk met them.
pub proof fn lemma_deferred_files_are_listed(config: Config, root: Seq<char>, visits: Seq<Visit>)
    ensures
        state_after(config, root, visits).big_files == deferred_of(config, visits),
        state_after(config, root, visits).config == config,
        state_after(config, root, visits).root == root,
    decreases visits.len(),
{
    if visits.len() > 0 {
        lemma_deferred_files_are_listed(config, root, visits.drop_last());
    }
}

/// Size-limit enforcement: a file larger than a nonzero size limit is
/// deferred to chunked replication under every free-memory reading, and so
/// stands in the list of deferred files at the end of the walk.
pub proof fn lemma_size_limit_defers(config: Config, root: Seq<char>, visits: Seq<Visit>, j: int)
    requires
        0 <= j < visits.len(),
        visits[j] is File,
        config.file_size_limit != 0,
        visits[j]->File_0.size() > config.file_size_limit,
    ensures
        forall|free_memory: u64| !config.may_buffer(free_memory, visits[j]->File_0.size()),
        visits[j].is_deferred(config),
        state_after(config, root, visits).big_files.contains(visits[j]->File_0.deferred()),
{
    lemma_deferred_files_are_listed(config, root, visits);
    lemma_deferred_is_listed(config, visits, j);
}

} // verus!
