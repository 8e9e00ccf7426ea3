//! The invariant of a run, and the steps that keep it.
//!
//! After any number of visits, what has been done to the destination and
//! what is pending in the buffer account for the visits so far, each exactly
//! once and in an order that puts directories first. The lemmas of this
//! module establish that; the laws of a run rest on it.

use crate::buffer::{
    distinct_paths, holds, lemma_flush_makes_directories_first, lemma_put_is_insert,
    lemma_slot_of, slot_of, BatchModel, FileModel,
};
use crate::chunk::read_len;
use crate::config::Config;
use crate::effect::{apply_all, lemma_apply_all_concat, lookup, Effect, Node, Tree};
use crate::replicator::ReplicatorModel;
use crate::run::{
    append_effects, chunk_effects, deferred_effects, deferred_of, effects_during, is_walk,
    run_effects, sizes_fit, state_after, FileVisit, Visit,
};
use vstd::prelude::*;

verus! {

/// Appending the chunks of a file from an offset on, to a file that holds
/// the bytes before the offset, leaves the whole content.
pub proof fn lemma_append_effects(
    tree: Tree,
    path: Seq<char>,
    data: Seq<u8>,
    chunk_size: nat,
    offset: nat,
)
    requires
        chunk_size >= 1,
        offset <= data.len(),
        lookup(tree, path) == Some(Node::File(data.take(offset as int))),
    ensures
        lookup(apply_all(tree, append_effects(path, data, chunk_size, offset)), path) == Some(
            Node::File(data),
        ),
    decreases data.len() - offset,
{
    if offset >= data.len() {
        assert(data.take(offset as int) =~= data);
    } else {
        let len = read_len(chunk_size, (data.len() - offset) as nat);
        let chunk = data.subrange(offset as int, (offset + len) as int);
        let first = seq![Effect::Append(path, chunk)];
        let rest = append_effects(path, data, chunk_size, offset + len);
        let next = apply_all(tree, first);
        assert(first.drop_last() =~= Seq::<Effect>::empty());
        assert(first.last() == Effect::Append(path, chunk));
        assert(apply_all(tree, first.drop_last()) == tree);
        assert(data.take(offset as int) + chunk =~= data.take((offset + len) as int));
        assert(lookup(next, path) == Some(Node::File(data.take((offset + len) as int))));
        lemma_append_effects(next, path, data, chunk_size, offset + len);
        lemma_apply_all_concat(tree, first, rest);
    }
}

/// Every effect of the chunked replication of a file names the file's path
/// at the destination.
pub proof fn lemma_append_effects_paths(path: Seq<char>, data: Seq<u8>, chunk_size: nat, offset: nat)
    ensures
        forall|i: int|
            0 <= i < append_effects(path, data, chunk_size, offset).len() ==> (
            #[trigger] append_effects(path, data, chunk_size, offset)[i]).path() == path
                && append_effects(path, data, chunk_size, offset)[i] is Append,
    decreases data.len() - offset,
{
    if offset < data.len() {
        let len = read_len(chunk_size, (data.len() - offset) as nat);
        if len > 0 {
            lemma_append_effects_paths(path, data, chunk_size, offset + len);
        }
    }
}

/// Two paths under one root are the same only if they are the same below it.
pub proof fn lemma_same_root(root: Seq<char>, first: Seq<char>, second: Seq<char>)
    requires
        root + first == root + second,
    ensures
        first == second,
{
    assert(first =~= (root + first).skip(root.len() as int));
    assert(second =~= (root + second).skip(root.len() as int));
}

/// The directory visit at `i` makes `effect`.
pub open spec fn made_by(root: Seq<char>, visits: Seq<Visit>, i: int, effect: Effect) -> bool {
    &&& 0 <= i < visits.len()
    &&& visits[i] is Directory
    &&& effect == Effect::MakeDir(root + visits[i].path())
}

/// The buffered file visit at `j` writes `effect`.
pub open spec fn written_by(
    config: Config,
    root: Seq<char>,
    visits: Seq<Visit>,
    j: int,
    effect: Effect,
) -> bool {
    &&& 0 <= j < visits.len()
    &&& visits[j].is_buffered(config)
    &&& effect == Effect::WriteWhole(root + visits[j].path(), visits[j]->File_0.content)
}

/// The effect stems from one of the visits.
pub open spec fn accounted(config: Config, root: Seq<char>, visits: Seq<Visit>, effect: Effect) -> bool {
    ||| exists|i: int| made_by(root, visits, i, effect)
    ||| exists|j: int| written_by(config, root, visits, j, effect)
}

/// The visit at `i` is the directory `path`.
pub open spec fn directory_at(visits: Seq<Visit>, i: int, path: Seq<char>) -> bool {
    0 <= i < visits.len() && visits[i] == Visit::Directory(path)
}

/// The visit at `j` is a buffered file with this path and content.
pub open spec fn buffered_at(config: Config, visits: Seq<Visit>, j: int, file: FileModel) -> bool {
    &&& 0 <= j < visits.len()
    &&& visits[j].is_buffered(config)
    &&& file == (visits[j].path(), visits[j]->File_0.content)
}

/// Some visit is the directory `path`.
pub open spec fn directory_known(visits: Seq<Visit>, path: Seq<char>) -> bool {
    exists|i: int| directory_at(visits, i, path)
}

/// Some visit is a buffered file with this path and content.
pub open spec fn file_known(config: Config, visits: Seq<Visit>, file: FileModel) -> bool {
    exists|j: int| buffered_at(config, visits, j, file)
}

/// The directory `path` is made by an effect before place `b`.
pub open spec fn made_before(effects: Seq<Effect>, b: int, path: Seq<char>) -> bool {
    exists|a: int| 0 <= a < b && a < effects.len() && #[trigger] effects[a] == Effect::MakeDir(path)
}

/// Every directory met before the visit at `j` is made before place `b`.
pub open spec fn directories_made_before(
    root: Seq<char>,
    visits: Seq<Visit>,
    j: int,
    effects: Seq<Effect>,
    b: int,
) -> bool {
    forall|i: int|
        0 <= i < j && (#[trigger] visits[i]) is Directory ==> made_before(
            effects,
            b,
            root + visits[i].path(),
        )
}

/// What is pending stems from the visits.
pub open spec fn pending_known(config: Config, visits: Seq<Visit>, state: ReplicatorModel) -> bool {
    &&& forall|x: int|
        0 <= x < state.batch.directories.len() ==> directory_known(
            visits,
            #[trigger] state.batch.directories[x],
        )
    &&& forall|x: int|
        0 <= x < state.batch.files.len() ==> file_known(
            config,
            visits,
            #[trigger] state.batch.files[x],
        )
}

/// Every effect stems from the visits.
pub open spec fn effects_known(
    config: Config,
    root: Seq<char>,
    visits: Seq<Visit>,
    effects: Seq<Effect>,
) -> bool {
    forall|b: int| 0 <= b < effects.len() ==> accounted(config, root, visits, #[trigger] effects[b])
}

/// Every directory and every buffered file of the visits has been carried
/// out or is pending.
pub open spec fn visits_covered(
    config: Config,
    root: Seq<char>,
    visits: Seq<Visit>,
    state: ReplicatorModel,
    effects: Seq<Effect>,
) -> bool {
    &&& forall|i: int|
        0 <= i < visits.len() && (#[trigger] visits[i]) is Directory ==> effects.contains(
            Effect::MakeDir(root + visits[i].path()),
        ) || state.batch.directories.contains(visits[i].path())
    &&& forall|j: int|
        0 <= j < visits.len() && (#[trigger] visits[j]).is_buffered(config) ==> effects.contains(
            Effect::WriteWhole(root + visits[j].path(), visits[j]->File_0.content),
        ) || state.batch.files.contains((visits[j].path(), visits[j]->File_0.content))
}

/// Wherever an effect names the path of a file, the directories met before
/// that file have been made before it.
pub open spec fn ordered(root: Seq<char>, visits: Seq<Visit>, effects: Seq<Effect>) -> bool {
    forall|b: int, j: int|
        0 <= b < effects.len() && 0 <= j < visits.len() && (#[trigger] visits[j]) is File && (
        #[trigger] effects[b]).path() == root + visits[j].path() ==> directories_made_before(
            root,
            visits,
            j,
            effects,
            b,
        )
}

/// What holds of the state and the effects after any number of visits.
pub open spec fn consistent(
    config: Config,
    root: Seq<char>,
    visits: Seq<Visit>,
    state: ReplicatorModel,
    effects: Seq<Effect>,
) -> bool {
    &&& state.config == config
    &&& state.root == root
    &&& distinct_paths(state.batch.files)
    &&& pending_known(config, visits, state)
    &&& effects_known(config, root, visits, effects)
    &&& visits_covered(config, root, visits, state, effects)
    &&& ordered(root, visits, effects)
}

/// No effect that stems from earlier visits names the path of a later one.
pub proof fn lemma_new_path_is_unnamed(
    config: Config,
    root: Seq<char>,
    visits: Seq<Visit>,
    visit: Visit,
    effect: Effect,
)
    requires
        is_walk(visits.push(visit)),
        accounted(config, root, visits, effect),
    ensures
        effect.path() != root + visit.path(),
{
    let all = visits.push(visit);
    let k = visits.len() as int;
    assert(all[k] == visit);
    if effect.path() == root + visit.path() {
        if exists|i: int| made_by(root, visits, i, effect) {
            let i = choose|i: int| made_by(root, visits, i, effect);
            assert(all[i] == visits[i]);
            lemma_same_root(root, visits[i].path(), visit.path());
            assert(all[i].path() != all[k].path());
        } else {
            let j = choose|j: int| written_by(config, root, visits, j, effect);
            assert(all[j] == visits[j]);
            lemma_same_root(root, visits[j].path(), visit.path());
            assert(all[j].path() != all[k].path());
        }
    }
}

/// One more visit takes nothing from what was known of the earlier ones.
pub proof fn lemma_more_visits(
    config: Config,
    root: Seq<char>,
    visits: Seq<Visit>,
    visit: Visit,
    state: ReplicatorModel,
    effects: Seq<Effect>,
)
    requires
        is_walk(visits.push(visit)),
        consistent(config, root, visits, state, effects),
    ensures
        pending_known(config, visits.push(visit), state),
        effects_known(config, root, visits.push(visit), effects),
        ordered(root, visits.push(visit), effects),
        forall|i: int|
            0 <= i < visits.len() && (#[trigger] visits[i]) is Directory ==> effects.contains(
                Effect::MakeDir(root + visits[i].path()),
            ) || state.batch.directories.contains(visits[i].path()),
        forall|j: int|
            0 <= j < visits.len() && (#[trigger] visits[j]).is_buffered(config)
                ==> effects.contains(
                Effect::WriteWhole(root + visits[j].path(), visits[j]->File_0.content),
            ) || state.batch.files.contains((visits[j].path(), visits[j]->File_0.content)),
{
    let all = visits.push(visit);
    let k = visits.len() as int;
    assert forall|x: int| 0 <= x < state.batch.directories.len() implies directory_known(
        all,
        #[trigger] state.batch.directories[x],
    ) by {
        let d = state.batch.directories[x];
        assert(directory_known(visits, d));
        let i = choose|i: int| directory_at(visits, i, d);
        assert(directory_at(all, i, d));
    }
    assert forall|x: int| 0 <= x < state.batch.files.len() implies file_known(
        config,
        all,
        #[trigger] state.batch.files[x],
    ) by {
        let f = state.batch.files[x];
        assert(file_known(config, visits, f));
        let j = choose|j: int| buffered_at(config, visits, j, f);
        assert(buffered_at(config, all, j, f));
    }
    assert forall|b: int| 0 <= b < effects.len() implies accounted(
        config,
        root,
        all,
        #[trigger] effects[b],
    ) by {
        let e = effects[b];
        assert(accounted(config, root, visits, e));
        if exists|i: int| made_by(root, visits, i, e) {
            let i = choose|i: int| made_by(root, visits, i, e);
            assert(made_by(root, all, i, e));
        } else {
            let j = choose|j: int| written_by(config, root, visits, j, e);
            assert(written_by(config, root, all, j, e));
        }
    }
    assert forall|b: int, j: int|
        0 <= b < effects.len() && 0 <= j < all.len() && (#[trigger] all[j]) is File && (
        #[trigger] effects[b]).path() == root + all[j].path() implies directories_made_before(
        root,
        all,
        j,
        effects,
        b,
    ) by {
        if j == k {
            lemma_new_path_is_unnamed(config, root, visits, visit, effects[b]);
        } else {
            assert(all[j] == visits[j]);
            assert(directories_made_before(root, visits, j, effects, b));
            assert forall|i: int| 0 <= i < j && (#[trigger] all[i]) is Directory implies made_before(
                effects,
                b,
                root + all[i].path(),
            ) by {
                assert(all[i] == visits[i]);
            }
        }
    }
}

/// A directory visit keeps the run consistent.
pub proof fn lemma_directory_step(
    config: Config,
    root: Seq<char>,
    visits: Seq<Visit>,
    path: Seq<char>,
    state: ReplicatorModel,
    effects: Seq<Effect>,
)
    requires
        is_walk(visits.push(Visit::Directory(path))),
        consistent(config, root, visits, state, effects),
    ensures
        consistent(
            config,
            root,
            visits.push(Visit::Directory(path)),
            state.with_directory(path),
            effects,
        ),
{
    let visit = Visit::Directory(path);
    let all = visits.push(visit);
    let next = state.with_directory(path);
    let k = visits.len() as int;
    lemma_more_visits(config, root, visits, visit, state, effects);
    assert(directory_at(all, k, path));
    assert forall|x: int| 0 <= x < next.batch.directories.len() implies directory_known(
        all,
        #[trigger] next.batch.directories[x],
    ) by {
        if x < state.batch.directories.len() {
            assert(next.batch.directories[x] == state.batch.directories[x]);
        }
    }
    assert forall|i: int| 0 <= i < all.len() && (#[trigger] all[i]) is Directory implies effects.contains(
        Effect::MakeDir(root + all[i].path()),
    ) || next.batch.directories.contains(all[i].path()) by {
        if i < k {
            assert(all[i] == visits[i]);
            if state.batch.directories.contains(visits[i].path()) {
                let x = choose|x: int|
                    0 <= x < state.batch.directories.len() && state.batch.directories[x]
                        == visits[i].path();
                assert(next.batch.directories[x] == visits[i].path());
            }
        } else {
            assert(next.batch.directories[state.batch.directories.len() as int] == path);
        }
    }
    assert forall|j: int| 0 <= j < all.len() && (#[trigger] all[j]).is_buffered(config) implies effects.contains(
        Effect::WriteWhole(root + all[j].path(), all[j]->File_0.content),
    ) || next.batch.files.contains((all[j].path(), all[j]->File_0.content)) by {
        assert(all[j] == visits[j]);
    }
}

/// A file that is buffered keeps the run consistent.
pub proof fn lemma_buffer_step(
    config: Config,
    root: Seq<char>,
    visits: Seq<Visit>,
    file: FileVisit,
    state: ReplicatorModel,
    effects: Seq<Effect>,
)
    requires
        is_walk(visits.push(Visit::File(file))),
        Visit::File(file).is_buffered(config),
        consistent(config, root, visits, state, effects),
    ensures
        consistent(
            config,
            root,
            visits.push(Visit::File(file)),
            state.with_file(file.relative_path, file.content),
            effects,
        ),
{
    let visit = Visit::File(file);
    let all = visits.push(visit);
    let next = state.with_file(file.relative_path, file.content);
    let k = visits.len() as int;
    let old_files = state.batch.files;
    let new_files = next.batch.files;
    lemma_more_visits(config, root, visits, visit, state, effects);
    lemma_put_is_insert(old_files, file.relative_path, file.content, file.relative_path);
    assert(all[k] == visit);
    assert(!holds(old_files, file.relative_path)) by {
        if holds(old_files, file.relative_path) {
            lemma_slot_of(old_files, file.relative_path);
            let x = slot_of(old_files, file.relative_path);
            assert(file_known(config, visits, old_files[x]));
            let j = choose|j: int| buffered_at(config, visits, j, old_files[x]);
            assert(all[j] == visits[j]);
            assert(all[j].path() != all[k].path());
        }
    }
    assert(new_files == old_files.push((file.relative_path, file.content)));
    assert(buffered_at(config, all, k, (file.relative_path, file.content)));
    assert forall|x: int| 0 <= x < new_files.len() implies file_known(
        config,
        all,
        #[trigger] new_files[x],
    ) by {
        if x < old_files.len() {
            assert(new_files[x] == old_files[x]);
        }
    }
    assert forall|i: int| 0 <= i < all.len() && (#[trigger] all[i]) is Directory implies effects.contains(
        Effect::MakeDir(root + all[i].path()),
    ) || next.batch.directories.contains(all[i].path()) by {
        assert(all[i] == visits[i]);
    }
    assert forall|j: int| 0 <= j < all.len() && (#[trigger] all[j]).is_buffered(config) implies effects.contains(
        Effect::WriteWhole(root + all[j].path(), all[j]->File_0.content),
    ) || new_files.contains((all[j].path(), all[j]->File_0.content)) by {
        if j < k {
            assert(all[j] == visits[j]);
            let f = (visits[j].path(), visits[j]->File_0.content);
            if old_files.contains(f) {
                let x = choose|x: int| 0 <= x < old_files.len() && old_files[x] == f;
                assert(new_files[x] == f);
            }
        } else {
            assert(new_files[old_files.len() as int] == (file.relative_path, file.content));
        }
    }
}

/// A file that is deferred keeps the run consistent.
pub proof fn lemma_defer_step(
    config: Config,
    root: Seq<char>,
    visits: Seq<Visit>,
    file: FileVisit,
    state: ReplicatorModel,
    effects: Seq<Effect>,
)
    requires
        is_walk(visits.push(Visit::File(file))),
        Visit::File(file).is_deferred(config),
        consistent(config, root, visits, state, effects),
    ensures
        consistent(
            config,
            root,
            visits.push(Visit::File(file)),
            state.routed(file.entry(), file.route_reading),
            effects,
        ),
{
    let visit = Visit::File(file);
    let all = visits.push(visit);
    let next = state.routed(file.entry(), file.route_reading);
    lemma_more_visits(config, root, visits, visit, state, effects);
    assert(next.batch == state.batch);
    assert forall|i: int| 0 <= i < all.len() && (#[trigger] all[i]) is Directory implies effects.contains(
        Effect::MakeDir(root + all[i].path()),
    ) || next.batch.directories.contains(all[i].path()) by {
        assert(all[i] == visits[i]);
    }
    assert forall|j: int| 0 <= j < all.len() && (#[trigger] all[j]).is_buffered(config) implies effects.contains(
        Effect::WriteWhole(root + all[j].path(), all[j]->File_0.content),
    ) || next.batch.files.contains((all[j].path(), all[j]->File_0.content)) by {
        if j < visits.len() {
            assert(all[j] == visits[j]);
        }
    }
}

/// A flush keeps the run consistent: what was pending has been carried out,
/// the directories before the files.
pub proof fn lemma_flush_step(
    config: Config,
    root: Seq<char>,
    visits: Seq<Visit>,
    state: ReplicatorModel,
    effects: Seq<Effect>,
)
    requires
        is_walk(visits),
        consistent(config, root, visits, state, effects),
    ensures
        consistent(
            config,
            root,
            visits,
            ReplicatorModel { batch: BatchModel::empty(), ..state },
            effects + state.batch.flush_effects(root),
        ),
{
    let batch = state.batch;
    let flushed = batch.flush_effects(root);
    let after = effects + flushed;
    let next = ReplicatorModel { batch: BatchModel::empty(), ..state };
    let done = effects.len() as int;
    let dirs = batch.directories.len() as int;
    lemma_flush_makes_directories_first(batch, root);
    assert forall|b: int| 0 <= b < after.len() implies accounted(
        config,
        root,
        visits,
        #[trigger] after[b],
    ) by {
        if b < done {
            assert(after[b] == effects[b]);
        } else if b - done < dirs {
            let x = b - done;
            assert(after[b] == flushed[x]);
            let d = batch.directories[x];
            assert(directory_known(visits, d));
            let i = choose|i: int| directory_at(visits, i, d);
            assert(made_by(root, visits, i, after[b]));
        } else {
            let y = b - done - dirs;
            assert(after[b] == flushed[dirs + y]);
            let f = batch.files[y];
            assert(file_known(config, visits, f));
            let j = choose|j: int| buffered_at(config, visits, j, f);
            assert(written_by(config, root, visits, j, after[b]));
        }
    }
    assert forall|i: int| 0 <= i < visits.len() && (#[trigger] visits[i]) is Directory implies after.contains(
        Effect::MakeDir(root + visits[i].path()),
    ) by {
        lemma_directory_is_made(root, visits, i, state, effects);
    }
    assert forall|j: int| 0 <= j < visits.len() && (#[trigger] visits[j]).is_buffered(
        config,
    ) implies after.contains(
        Effect::WriteWhole(root + visits[j].path(), visits[j]->File_0.content),
    ) by {
        let e = Effect::WriteWhole(root + visits[j].path(), visits[j]->File_0.content);
        if effects.contains(e) {
            let b = choose|b: int| 0 <= b < effects.len() && effects[b] == e;
            assert(after[b] == e);
        } else {
            let f = (visits[j].path(), visits[j]->File_0.content);
            let y = choose|y: int| 0 <= y < batch.files.len() && batch.files[y] == f;
            assert(flushed[dirs + y] == e);
            assert(after[done + dirs + y] == e);
        }
    }
    assert forall|b: int, j: int|
        0 <= b < after.len() && 0 <= j < visits.len() && (#[trigger] visits[j]) is File && (
        #[trigger] after[b]).path() == root + visits[j].path() implies directories_made_before(
        root,
        visits,
        j,
        after,
        b,
    ) by {
        assert forall|i: int| 0 <= i < j && (#[trigger] visits[i]) is Directory implies made_before(
            after,
            b,
            root + visits[i].path(),
        ) by {
            let made = Effect::MakeDir(root + visits[i].path());
            if b < done {
                assert(after[b] == effects[b]);
                assert(directories_made_before(root, visits, j, effects, b));
                assert(made_before(effects, b, root + visits[i].path()));
                let a = choose|a: int|
                    0 <= a < b && a < effects.len() && #[trigger] effects[a] == made;
                assert(after[a] == made);
            } else if b - done < dirs {
                let x = b - done;
                assert(after[b] == flushed[x]);
                let d = batch.directories[x];
                let i2 = choose|i2: int| directory_at(visits, i2, d);
                lemma_same_root(root, d, visits[j].path());
                if i2 < j {
                    assert(visits[i2].path() != visits[j].path());
                } else if j < i2 {
                    assert(visits[j].path() != visits[i2].path());
                }
            } else {
                let y = b - done - dirs;
                assert(after[b] == flushed[dirs + y]);
                let f = batch.files[y];
                let j2 = choose|j2: int| buffered_at(config, visits, j2, f);
                lemma_same_root(root, f.0, visits[j].path());
                if j2 < j {
                    assert(visits[j2].path() != visits[j].path());
                } else if j < j2 {
                    assert(visits[j].path() != visits[j2].path());
                }
                lemma_directory_is_made(root, visits, i, state, effects);
                if effects.contains(made) {
                    let a = choose|a: int| 0 <= a < effects.len() && effects[a] == made;
                    assert(after[a] == made);
                } else {
                    let x = choose|x: int|
                        0 <= x < batch.directories.len() && batch.directories[x]
                            == visits[i].path();
                    assert(flushed[x] == made);
                    assert(after[done + x] == made);
                }
            }
        }
    }
}

/// After a flush every directory met so far has been made.
pub proof fn lemma_directory_is_made(
    root: Seq<char>,
    visits: Seq<Visit>,
    i: int,
    state: ReplicatorModel,
    effects: Seq<Effect>,
)
    requires
        0 <= i < visits.len(),
        visits[i] is Directory,
        effects.contains(Effect::MakeDir(root + visits[i].path()))
            || state.batch.directories.contains(visits[i].path()),
    ensures
        (effects + state.batch.flush_effects(root)).contains(
            Effect::MakeDir(root + visits[i].path()),
        ),
{
    let made = Effect::MakeDir(root + visits[i].path());
    let flushed = state.batch.flush_effects(root);
    let after = effects + flushed;
    lemma_flush_makes_directories_first(state.batch, root);
    if effects.contains(made) {
        let b = choose|b: int| 0 <= b < effects.len() && effects[b] == made;
        assert(after[b] == made);
    } else {
        let x = choose|x: int|
            0 <= x < state.batch.directories.len() && state.batch.directories[x]
                == visits[i].path();
        assert(flushed[x] == made);
        assert(after[effects.len() + x] == made);
    }
}

/// The state and the effects of a walk are consistent after every visit.
pub proof fn lemma_walk_is_consistent(config: Config, root: Seq<char>, visits: Seq<Visit>)
    requires
        is_walk(visits),
    ensures
        consistent(
            config,
            root,
            visits,
            state_after(config, root, visits),
            effects_during(config, root, visits),
        ),
    decreases visits.len(),
{
    if visits.len() > 0 {
        let earlier = visits.drop_last();
        let visit = visits.last();
        assert(visits =~= earlier.push(visit));
        lemma_earlier_is_walk(visits);
        lemma_walk_is_consistent(config, root, earlier);
        let state = state_after(config, root, earlier);
        let effects = effects_during(config, root, earlier);
        match visit {
            Visit::Directory(path) => {
                lemma_directory_step(config, root, earlier, path, state, effects);
                assert(effects + Seq::<Effect>::empty() =~= effects);
            },
            Visit::File(file) => {
                let prepared = state.prepared(file.size(), file.flush_reading);
                let now = effects + state.prepare_effects(file.size(), file.flush_reading);
                if config.flush_needed(file.flush_reading, file.size()) {
                    lemma_flush_step(config, root, earlier, state, effects);
                } else {
                    assert(now =~= effects);
                }
                assert(consistent(config, root, earlier, prepared, now));
                if visit.is_buffered(config) {
                    lemma_buffer_step(config, root, earlier, file, prepared, now);
                } else {
                    lemma_defer_step(config, root, earlier, file, prepared, now);
                }
            },
        }
    }
}

/// Where the sizes of the visits fit, so do those of the earlier visits.
pub proof fn lemma_earlier_sizes_fit(visits: Seq<Visit>)
    requires
        sizes_fit(visits),
        visits.len() > 0,
    ensures
        sizes_fit(visits.drop_last()),
{
    let earlier = visits.drop_last();
    assert forall|i: int| 0 <= i < earlier.len() implies ((
    #[trigger] earlier[i]) matches Visit::File(file) ==> file.content.len() <= u64::MAX) by {
        assert(earlier[i] == visits[i]);
    }
}

/// The prefix of a walk is a walk.
pub proof fn lemma_earlier_is_walk(visits: Seq<Visit>)
    requires
        is_walk(visits),
        visits.len() > 0,
    ensures
        is_walk(visits.drop_last()),
{
    let earlier = visits.drop_last();
    lemma_earlier_sizes_fit(visits);
    assert forall|i: int, j: int| 0 <= i < j < earlier.len() implies (#[trigger] earlier[i]).path()
        != (#[trigger] earlier[j]).path() by {
        assert(earlier[i] == visits[i] && earlier[j] == visits[j]);
    }
}

/// The deferred file visit at `j` is what `effect` works on.
pub open spec fn chunked_by(
    config: Config,
    root: Seq<char>,
    visits: Seq<Visit>,
    j: int,
    effect: Effect,
) -> bool {
    &&& 0 <= j < visits.len()
    &&& visits[j].is_deferred(config)
    &&& effect.path() == root + visits[j].path()
    &&& effect is Truncate || effect is Append
}

/// Some deferred file visit is what `effect` works on.
pub open spec fn names_deferred(config: Config, root: Seq<char>, visits: Seq<Visit>, effect: Effect) -> bool {
    exists|j: int| chunked_by(config, root, visits, j, effect)
}

/// Every effect of the chunked replication works on a deferred file.
pub proof fn lemma_deferred_effects_known(config: Config, root: Seq<char>, visits: Seq<Visit>)
    ensures
        forall|b: int|
            0 <= b < deferred_effects(config, root, visits).len() ==> names_deferred(
                config,
                root,
                visits,
                #[trigger] deferred_effects(config, root, visits)[b],
            ),
    decreases visits.len(),
{
    if visits.len() > 0 {
        let earlier = visits.drop_last();
        let before = deferred_effects(config, root, earlier);
        let all = deferred_effects(config, root, visits);
        lemma_deferred_effects_known(config, root, earlier);
        assert forall|b: int| 0 <= b < all.len() implies names_deferred(
            config,
            root,
            visits,
            #[trigger] all[b],
        ) by {
            if b < before.len() {
                assert(all[b] == before[b]);
                assert(names_deferred(config, root, earlier, before[b]));
                let j = choose|j: int| chunked_by(config, root, earlier, j, before[b]);
                assert(earlier[j] == visits[j]);
                assert(chunked_by(config, root, visits, j, all[b]));
            } else {
                let file = visits.last()->File_0;
                let block = chunk_effects(config, root, file);
                lemma_append_effects_paths(
                    root + file.relative_path,
                    file.content,
                    config.chunk_limit(file.chunk_reading),
                    0,
                );
                assert(all[b] == block[b - before.len()]);
                assert(chunked_by(config, root, visits, visits.len() - 1, all[b]));
            }
        }
    }
}

/// The chunked replication of a deferred file stands in one piece among the
/// effects of all deferred files, and nothing after it names its path.
pub proof fn lemma_deferred_block(config: Config, root: Seq<char>, visits: Seq<Visit>, j: int) -> (parts:
    (Seq<Effect>, Seq<Effect>))
    requires
        is_walk(visits),
        0 <= j < visits.len(),
        visits[j].is_deferred(config),
    ensures
        deferred_effects(config, root, visits) == parts.0 + chunk_effects(
            config,
            root,
            visits[j]->File_0,
        ) + parts.1,
        forall|b: int|
            0 <= b < parts.1.len() ==> (#[trigger] parts.1[b]).path() != root + visits[j].path(),
    decreases visits.len(),
{
    let earlier = visits.drop_last();
    let before = deferred_effects(config, root, earlier);
    let block = chunk_effects(config, root, visits[j]->File_0);
    if j == visits.len() - 1 {
        assert(before + block + Seq::<Effect>::empty() =~= before + block);
        (before, Seq::empty())
    } else {
        lemma_earlier_is_walk(visits);
        assert(earlier[j] == visits[j]);
        let inner = lemma_deferred_block(config, root, earlier, j);
        if visits.last().is_deferred(config) {
            let file = visits.last()->File_0;
            let last_block = chunk_effects(config, root, file);
            lemma_append_effects_paths(
                root + file.relative_path,
                file.content,
                config.chunk_limit(file.chunk_reading),
                0,
            );
            let rest = inner.1 + last_block;
            assert(inner.0 + block + inner.1 + last_block =~= inner.0 + block + rest);
            assert forall|b: int| 0 <= b < rest.len() implies (#[trigger] rest[b]).path() != root
                + visits[j].path() by {
                if b < inner.1.len() {
                    assert(rest[b] == inner.1[b]);
                } else {
                    assert(rest[b] == last_block[b - inner.1.len()]);
                    if rest[b].path() == root + visits[j].path() {
                        lemma_same_root(root, file.relative_path, visits[j].path());
                        assert(visits[j].path() != visits[visits.len() - 1].path());
                    }
                }
            }
            (inner.0, rest)
        } else {
            inner
        }
    }
}

/// Two visits of a walk with the same path are the same visit.
pub proof fn lemma_one_visit_per_path(visits: Seq<Visit>, first: int, second: int)
    requires
        is_walk(visits),
        0 <= first < visits.len(),
        0 <= second < visits.len(),
        visits[first].path() == visits[second].path(),
    ensures
        first == second,
{
    if first < second {
        assert(visits[first].path() != visits[second].path());
    } else if second < first {
        assert(visits[second].path() != visits[first].path());
    }
}

/// Every effect of a run names the path of one of the visits.
pub proof fn lemma_effects_name_visits(config: Config, root: Seq<char>, visits: Seq<Visit>, b: int)
    requires
        is_walk(visits),
        0 <= b < run_effects(config, root, visits).len(),
    ensures
        exists|i: int|
            0 <= i < visits.len() && run_effects(config, root, visits)[b].path() == root + (
            #[trigger] visits[i]).path(),
{
    let state = state_after(config, root, visits);
    let walked = effects_during(config, root, visits) + state.batch.flush_effects(root);
    let chunked = deferred_effects(config, root, visits);
    let all = run_effects(config, root, visits);
    assert(all == walked + chunked);
    lemma_walk_is_consistent(config, root, visits);
    lemma_flush_step(config, root, visits, state, effects_during(config, root, visits));
    lemma_deferred_effects_known(config, root, visits);
    if b < walked.len() {
        assert(all[b] == walked[b]);
        assert(accounted(config, root, visits, walked[b]));
        if exists|k: int| made_by(root, visits, k, walked[b]) {
            let k = choose|k: int| made_by(root, visits, k, walked[b]);
            assert(all[b].path() == root + visits[k].path());
        } else {
            let k = choose|k: int| written_by(config, root, visits, k, walked[b]);
            assert(all[b].path() == root + visits[k].path());
        }
    } else {
        let named = chunked[b - walked.len()];
        assert(all[b] == named);
        assert(names_deferred(config, root, visits, named));
        let k = choose|k: int| chunked_by(config, root, visits, k, named);
        assert(all[b].path() == root + visits[k].path());
    }
}

/// A deferred visit stands in the list of deferred files.
pub proof fn lemma_deferred_is_listed(config: Config, visits: Seq<Visit>, j: int)
    requires
        0 <= j < visits.len(),
        visits[j].is_deferred(config),
    ensures
        deferred_of(config, visits).contains(visits[j]->File_0.deferred()),
    decreases visits.len(),
{
    let earlier = visits.drop_last();
    let listed = deferred_of(config, visits);
    if j == visits.len() - 1 {
        assert(listed[listed.len() - 1] == visits[j]->File_0.deferred());
    } else {
        assert(earlier[j] == visits[j]);
        lemma_deferred_is_listed(config, earlier, j);
        let before = deferred_of(config, earlier);
        let x = choose|x: int| 0 <= x < before.len() && before[x] == visits[j]->File_0.deferred();
        assert(listed[x] == before[x]);
    }
}

/// Every directory of a walk is made in the run.
pub proof fn lemma_directory_is_in_run(config: Config, root: Seq<char>, visits: Seq<Visit>, i: int)
    requires
        is_walk(visits),
        0 <= i < visits.len(),
        visits[i] is Directory,
    ensures
        exists|a: int|
            0 <= a < run_effects(config, root, visits).len() && #[trigger] run_effects(
                config,
                root,
                visits,
            )[a] == Effect::MakeDir(root + visits[i].path()),
{
    let state = state_after(config, root, visits);
    let walked = effects_during(config, root, visits) + state.batch.flush_effects(root);
    let all = run_effects(config, root, visits);
    let made = Effect::MakeDir(root + visits[i].path());
    assert(all == walked + deferred_effects(config, root, visits));
    lemma_walk_is_consistent(config, root, visits);
    lemma_flush_step(config, root, visits, state, effects_during(config, root, visits));
    assert(walked.contains(made));
    let a = choose|a: int| 0 <= a < walked.len() && walked[a] == made;
    assert(all[a] == made);
}

/// Every directory that a run makes is a directory of the walk.
pub proof fn lemma_made_directory_is_visit(
    config: Config,
    root: Seq<char>,
    visits: Seq<Visit>,
    b: int,
) -> (i: int)
    requires
        is_walk(visits),
        0 <= b < run_effects(config, root, visits).len(),
        run_effects(config, root, visits)[b] is MakeDir,
    ensures
        0 <= i < visits.len(),
        visits[i] is Directory,
        run_effects(config, root, visits)[b] == Effect::MakeDir(root + visits[i].path()),
{
    let state = state_after(config, root, visits);
    let walked = effects_during(config, root, visits) + state.batch.flush_effects(root);
    let chunked = deferred_effects(config, root, visits);
    let all = run_effects(config, root, visits);
    assert(all == walked + chunked);
    lemma_walk_is_consistent(config, root, visits);
    lemma_flush_step(config, root, visits, state, effects_during(config, root, visits));
    lemma_deferred_effects_known(config, root, visits);
    if b < walked.len() {
        assert(all[b] == walked[b]);
        assert(accounted(config, root, visits, walked[b]));
        if exists|k: int| made_by(root, visits, k, walked[b]) {
            choose|k: int| made_by(root, visits, k, walked[b])
        } else {
            let k = choose|k: int| written_by(config, root, visits, k, walked[b]);
            assert(false);
            0
        }
    } else {
        let named = chunked[b - walked.len()];
        assert(all[b] == named);
        assert(names_deferred(config, root, visits, named));
        let k = choose|k: int| chunked_by(config, root, visits, k, named);
        assert(false);
        0
    }
}

} // verus!
