//! Operations on the destination, and what they do to it.
//!
//! The library never touches the destination. It hands out `FsOp` values for
//! the caller to carry out, and reasons about them over a small model: the
//! destination as a map from paths to nodes, and each operation as an
//! `Effect` on that map.

use vstd::prelude::*;

verus! {

/// What a path of the destination holds.
pub enum Node {
    Directory,
    File(Seq<u8>),
}

/// The destination: what each path holds, if anything.
pub type Tree = Map<Seq<char>, Node>;

/// One change to the destination.
pub enum Effect {
    /// The directory at the path exists afterwards, and so does every
    /// ancestor of it that was missing.
    MakeDir(Seq<char>),
    /// The file at the path holds exactly these bytes afterwards.
    WriteWhole(Seq<char>, Seq<u8>),
    /// The file at the path exists and is empty afterwards.
    Truncate(Seq<char>),
    /// The file at the path grows by these bytes at its end.
    Append(Seq<char>, Seq<u8>),
}

/// Whether `ancestor` names a directory above `path`: a proper prefix of
/// `path` that is not empty and ends just before a `/`.
pub open spec fn is_ancestor(ancestor: Seq<char>, path: Seq<char>) -> bool {
    &&& 0 < ancestor.len() < path.len()
    &&& path[ancestor.len() as int] == '/'
    &&& ancestor =~= path.take(ancestor.len() as int)
}

impl Effect {
    /// The path that the effect names.
    pub open spec fn path(self) -> Seq<char> {
        match self {
            Effect::MakeDir(path) => path,
            Effect::WriteWhole(path, _) => path,
            Effect::Truncate(path) => path,
            Effect::Append(path, _) => path,
        }
    }

    /// What the path that the effect names holds afterwards, given what it
    /// held before. Appending to what is not a file changes nothing.
    pub open spec fn on_node(self, before: Option<Node>) -> Option<Node> {
        match self {
            Effect::MakeDir(_) => Some(Node::Directory),
            Effect::WriteWhole(_, content) => Some(Node::File(content)),
            Effect::Truncate(_) => Some(Node::File(Seq::empty())),
            Effect::Append(_, content) => match before {
                Some(Node::File(old)) => Some(Node::File(old + content)),
                _ => before,
            },
        }
    }

    /// Whether the effect makes a directory below `path`, so that `path` is
    /// made with it where it is missing.
    pub open spec fn makes_below(self, path: Seq<char>) -> bool {
        self matches Effect::MakeDir(made) && is_ancestor(path, made)
    }
}

/// What `path` holds in `tree`.
pub open spec fn lookup(tree: Tree, path: Seq<char>) -> Option<Node> {
    if tree.contains_key(path) {
        Some(tree[path])
    } else {
        None
    }
}

/// The destination after one effect. Making a directory also makes every
/// ancestor of it that is missing, and leaves an ancestor that is there as
/// it is; every other effect changes the path it names and nothing else.
pub open spec fn apply(tree: Tree, effect: Effect) -> Tree {
    match effect {
        Effect::MakeDir(made) => Map::new(
            |path: Seq<char>| path == made || tree.contains_key(path) || is_ancestor(path, made),
            |path: Seq<char>|
                if path != made && tree.contains_key(path) {
                    tree[path]
                } else {
                    Node::Directory
                },
        ),
        _ => match effect.on_node(lookup(tree, effect.path())) {
            Some(node) => tree.insert(effect.path(), node),
            None => tree,
        },
    }
}

/// The destination after a sequence of effects, carried out in order.
pub open spec fn apply_all(tree: Tree, effects: Seq<Effect>) -> Tree
    decreases effects.len(),
{
    if effects.len() == 0 {
        tree
    } else {
        apply(apply_all(tree, effects.drop_last()), effects.last())
    }
}

/// What one effect does to every path: the path it names holds what the
/// effect leaves there; a missing ancestor of a made directory becomes a
/// directory; every other path holds what it held.
pub proof fn lemma_apply(tree: Tree, effect: Effect, path: Seq<char>)
    ensures
        lookup(apply(tree, effect), path) == if path == effect.path() {
            effect.on_node(lookup(tree, path))
        } else if effect.makes_below(path) && lookup(tree, path) is None {
            Some(Node::Directory)
        } else {
            lookup(tree, path)
        },
{
}

/// Effects carried out one sequence after another are the effects of the
/// two sequences joined.
pub proof fn lemma_apply_all_concat(tree: Tree, first: Seq<Effect>, second: Seq<Effect>)
    ensures
        apply_all(tree, first + second) == apply_all(apply_all(tree, first), second),
    decreases second.len(),
{
    if second.len() == 0 {
        assert(first + second =~= first);
    } else {
        lemma_apply_all_concat(tree, first, second.drop_last());
        assert((first + second).drop_last() =~= first + second.drop_last());
    }
}

/// A path that no effect names, and below which no directory is made, holds
/// afterwards what it held before.
pub proof fn lemma_untouched_path(tree: Tree, effects: Seq<Effect>, path: Seq<char>)
    requires
        forall|i: int| 0 <= i < effects.len() ==> (#[trigger] effects[i]).path() != path,
        forall|i: int| 0 <= i < effects.len() ==> !(#[trigger] effects[i]).makes_below(path),
    ensures
        lookup(apply_all(tree, effects), path) == lookup(tree, path),
    decreases effects.len(),
{
    if effects.len() > 0 {
        let before = effects.drop_last();
        assert forall|i: int| 0 <= i < before.len() implies (#[trigger] before[i]).path()
            != path by {
            assert(before[i] == effects[i]);
        }
        assert forall|i: int| 0 <= i < before.len() implies !(#[trigger] before[i]).makes_below(
            path,
        ) by {
            assert(before[i] == effects[i]);
        }
        lemma_untouched_path(tree, before, path);
        assert(effects.last() == effects[effects.len() - 1]);
        lemma_apply(apply_all(tree, before), effects.last(), path);
    }
}

/// A path that holds something, and that no effect names, holds afterwards
/// what it held before: making a directory below it leaves it as it is.
pub proof fn lemma_kept_path(tree: Tree, effects: Seq<Effect>, path: Seq<char>)
    requires
        lookup(tree, path) is Some,
        forall|i: int| 0 <= i < effects.len() ==> (#[trigger] effects[i]).path() != path,
    ensures
        lookup(apply_all(tree, effects), path) == lookup(tree, path),
    decreases effects.len(),
{
    if effects.len() > 0 {
        let before = effects.drop_last();
        assert forall|i: int| 0 <= i < before.len() implies (#[trigger] before[i]).path()
            != path by {
            assert(before[i] == effects[i]);
        }
        lemma_kept_path(tree, before, path);
        assert(effects.last() == effects[effects.len() - 1]);
        lemma_apply(apply_all(tree, before), effects.last(), path);
    }
}

/// No effect empties a path: what holds something before holds something
/// afterwards, if not the same.
pub proof fn lemma_presence_is_kept(tree: Tree, effects: Seq<Effect>, path: Seq<char>)
    requires
        lookup(tree, path) is Some,
    ensures
        lookup(apply_all(tree, effects), path) is Some,
    decreases effects.len(),
{
    if effects.len() > 0 {
        lemma_presence_is_kept(tree, effects.drop_last(), path);
        lemma_apply(apply_all(tree, effects.drop_last()), effects.last(), path);
    }
}

/// Where a directory is made, every ancestor of it holds something
/// afterwards, whatever comes later.
pub proof fn lemma_ancestor_is_present(
    tree: Tree,
    effects: Seq<Effect>,
    i: int,
    ancestor: Seq<char>,
)
    requires
        0 <= i < effects.len(),
        effects[i].makes_below(ancestor),
    ensures
        lookup(apply_all(tree, effects), ancestor) is Some,
    decreases effects.len(),
{
    let before = effects.drop_last();
    let reached = apply_all(tree, before);
    lemma_apply(reached, effects.last(), ancestor);
    if i < effects.len() - 1 {
        assert(before[i] == effects[i]);
        lemma_ancestor_is_present(tree, before, i, ancestor);
    } else {
        assert(effects.last() == effects[i]);
    }
}

/// Where every effect makes a directory, whatever was missing before and is
/// there afterwards is a directory, and a directory stays a directory.
pub proof fn lemma_only_directories_appear(tree: Tree, effects: Seq<Effect>, path: Seq<char>)
    requires
        forall|i: int| 0 <= i < effects.len() ==> (#[trigger] effects[i]) is MakeDir,
        lookup(tree, path) is None || lookup(tree, path) == Some(Node::Directory),
    ensures
        lookup(apply_all(tree, effects), path) is None || lookup(apply_all(tree, effects), path)
            == Some(Node::Directory),
    decreases effects.len(),
{
    if effects.len() > 0 {
        let before = effects.drop_last();
        assert forall|i: int| 0 <= i < before.len() implies (#[trigger] before[i]) is MakeDir by {
            assert(before[i] == effects[i]);
        }
        lemma_only_directories_appear(tree, before, path);
        assert(effects.last() == effects[effects.len() - 1]);
        lemma_apply(apply_all(tree, before), effects.last(), path);
    }
}

/// Making directories, one after the other, leaves each of them a
/// directory, and with it every ancestor that was missing before; an
/// ancestor that was there is still there. No missing ancestor stays
/// missing.
pub proof fn lemma_directories_are_made(
    tree: Tree,
    effects: Seq<Effect>,
    i: int,
    ancestor: Seq<char>,
)
    requires
        forall|k: int| 0 <= k < effects.len() ==> (#[trigger] effects[k]) is MakeDir,
        0 <= i < effects.len(),
        is_ancestor(ancestor, effects[i].path()),
    ensures
        lookup(apply_all(tree, effects), effects[i].path()) == Some(Node::Directory),
        lookup(apply_all(tree, effects), ancestor) is Some,
        lookup(tree, ancestor) is None ==> lookup(apply_all(tree, effects), ancestor) == Some(
            Node::Directory,
        ),
{
    lemma_directory_is_settled(tree, effects, i);
    lemma_ancestor_is_present(tree, effects, i, ancestor);
    if lookup(tree, ancestor) is None {
        lemma_only_directories_appear(tree, effects, ancestor);
    }
}

/// Making directories, one after the other, leaves each of them a
/// directory.
pub proof fn lemma_directory_is_settled(tree: Tree, effects: Seq<Effect>, i: int)
    requires
        forall|k: int| 0 <= k < effects.len() ==> (#[trigger] effects[k]) is MakeDir,
        0 <= i < effects.len(),
    ensures
        lookup(apply_all(tree, effects), effects[i].path()) == Some(Node::Directory),
    decreases effects.len(),
{
    let before = effects.drop_last();
    let reached = apply_all(tree, before);
    let path = effects[i].path();
    assert(effects.last() == effects[effects.len() - 1]);
    lemma_apply(reached, effects.last(), path);
    if i < effects.len() - 1 {
        assert forall|k: int| 0 <= k < before.len() implies (#[trigger] before[k]) is MakeDir by {
            assert(before[k] == effects[k]);
        }
        assert(before[i] == effects[i]);
        lemma_directory_is_settled(tree, before, i);
    }
}

/// Where every effect that names a path is the same making of a directory,
/// or the same writing of a whole file, and there is at least one, the path
/// holds afterwards what that effect leaves, whatever it held before and
/// whatever directories are made below it.
pub proof fn lemma_settled_path(tree: Tree, effects: Seq<Effect>, effect: Effect)
    requires
        effect is MakeDir || effect is WriteWhole,
        effects.contains(effect),
        forall|i: int|
            0 <= i < effects.len() && (#[trigger] effects[i]).path() == effect.path()
                ==> effects[i] == effect,
    ensures
        lookup(apply_all(tree, effects), effect.path()) == effect.on_node(None),
    decreases effects.len(),
{
    let before = effects.drop_last();
    let last = effects.last();
    assert(last == effects[effects.len() - 1]);
    lemma_apply(apply_all(tree, before), last, effect.path());
    if last.path() != effect.path() {
        let at = choose|i: int| 0 <= i < effects.len() && effects[i] == effect;
        assert(before[at] == effect);
        assert forall|i: int| 0 <= i < before.len() && (#[trigger] before[i]).path()
            == effect.path() implies before[i] == effect by {
            assert(before[i] == effects[i]);
        }
        lemma_settled_path(tree, before, effect);
    }
}

/// An operation for the caller to carry out on the destination.
#[derive(Debug, PartialEq, Eq)]
pub enum FsOp {
    /// Create the directory and every missing ancestor; succeed if present.
    CreateDir { path: String },
    /// Create the file, or overwrite it, with exactly these bytes.
    WriteFile { path: String, content: Vec<u8> },
}

impl View for FsOp {
    type V = Effect;

    open spec fn view(&self) -> Effect {
        match self {
            FsOp::CreateDir { path } => Effect::MakeDir(path@),
            FsOp::WriteFile { path, content } => Effect::WriteWhole(path@, content@),
        }
    }
}

/// The effects of a sequence of operations.
pub open spec fn effects_of(ops: Seq<FsOp>) -> Seq<Effect> {
    ops.map_values(|op: FsOp| op@)
}

} // verus!
