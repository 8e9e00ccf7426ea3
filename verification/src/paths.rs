//! Relative and destination paths.
//!
//! A relative path is what remains of an absolute path once the source root
//! has been taken off its front and surrounding whitespace has been trimmed.
//! A destination path is the destination root with the relative path appended
//! as it is; separators are not normalised.

use vstd::prelude::*;

verus! {

/// Whether `c` is whitespace in the sense of the Unicode property White_Space.
#[verifier::opaque]
pub open spec fn is_blank(c: char) -> bool {
    let n = c as u32;
    ||| 0x09 <= n <= 0x0d
    ||| n == 0x20
    ||| n == 0x85
    ||| n == 0xa0
    ||| n == 0x1680
    ||| 0x2000 <= n <= 0x200a
    ||| n == 0x2028
    ||| n == 0x2029
    ||| n == 0x202f
    ||| n == 0x205f
    ||| n == 0x3000
}

/// `path` without `root` at its front; `path` itself when it does not begin
/// with `root`.
pub open spec fn strip_root(path: Seq<char>, root: Seq<char>) -> Seq<char> {
    if root.is_prefix_of(path) {
        path.skip(root.len() as int)
    } else {
        path
    }
}

/// `s` without its leading whitespace.
pub open spec fn trim_start(s: Seq<char>) -> Seq<char>
    decreases s.len(),
{
    if s.len() > 0 && is_blank(s[0]) {
        trim_start(s.drop_first())
    } else {
        s
    }
}

/// `s` without its trailing whitespace.
pub open spec fn trim_end(s: Seq<char>) -> Seq<char>
    decreases s.len(),
{
    if s.len() > 0 && is_blank(s.last()) {
        trim_end(s.drop_last())
    } else {
        s
    }
}

/// `s` without the whitespace that surrounds it.
pub open spec fn trimmed(s: Seq<char>) -> Seq<char> {
    trim_end(trim_start(s))
}

/// The relative path of `absolute` under `root`.
pub open spec fn relative_of(absolute: Seq<char>, root: Seq<char>) -> Seq<char> {
    trimmed(strip_root(absolute, root))
}

/// `root` without one trailing `/`.
pub open spec fn without_trailing_separator(root: Seq<char>) -> Seq<char> {
    if root.len() > 0 && root.last() == '/' {
        root.drop_last()
    } else {
        root
    }
}

/// Leading whitespace ends at the first character that is not whitespace.
proof fn lemma_trim_start(s: Seq<char>, skip: int)
    requires
        0 <= skip <= s.len(),
        forall|i: int| 0 <= i < skip ==> is_blank(#[trigger] s[i]),
        skip < s.len() ==> !is_blank(s[skip]),
    ensures
        trim_start(s) == s.skip(skip),
    decreases skip,
{
    if skip == 0 {
        assert(s.skip(0) =~= s);
    } else {
        assert(is_blank(s[0]));
        let rest = s.drop_first();
        assert forall|i: int| 0 <= i < skip - 1 implies is_blank(#[trigger] rest[i]) by {
            assert(rest[i] == s[i + 1]);
        }
        lemma_trim_start(rest, skip - 1);
        assert(rest.skip(skip - 1) =~= s.skip(skip));
    }
}

/// Trailing whitespace begins after the last character that is not whitespace.
proof fn lemma_trim_end(s: Seq<char>, keep: int)
    requires
        0 <= keep <= s.len(),
        forall|i: int| keep <= i < s.len() ==> is_blank(#[trigger] s[i]),
        keep > 0 ==> !is_blank(s[keep - 1]),
    ensures
        trim_end(s) == s.take(keep),
    decreases s.len() - keep,
{
    if keep == s.len() {
        assert(s.take(keep) =~= s);
    } else {
        assert(is_blank(s.last()));
        let rest = s.drop_last();
        lemma_trim_end(rest, keep);
        assert(rest.take(keep) =~= s.take(keep));
    }
}

/// A path that stands under the source root, and neither begins nor ends
/// with whitespace below it, has as its relative path exactly what stands
/// below the root; appended to a destination root it names the same place
/// there.
pub proof fn lemma_relative_path_under_root(root: Seq<char>, below: Seq<char>)
    requires
        below.len() > 0 ==> !is_blank(below[0]) && !is_blank(below.last()),
    ensures
        relative_of(root + below, root) == below,
{
    let path = root + below;
    assert(root =~= path.subrange(0, root.len() as int));
    assert(path.skip(root.len() as int) =~= below);
}

/// What remains of a string from `start` on, once the whitespace from
/// `start` to `from` and from `to` to the end has been trimmed, is the range
/// between `from` and `to`.
proof fn lemma_trimmed_range(path: Seq<char>, start: int, from: int, to: int)
    requires
        0 <= start <= from <= to <= path.len(),
        forall|k: int| start <= k < from ==> is_blank(#[trigger] path[k]),
        forall|k: int| to <= k < path.len() ==> is_blank(#[trigger] path[k]),
        from < path.len() ==> !is_blank(path[from]),
        to > from ==> !is_blank(path[to - 1]),
    ensures
        trimmed(path.skip(start)) == path.subrange(from, to),
{
    let rest = path.skip(start);
    assert forall|i: int| 0 <= i < from - start implies is_blank(#[trigger] rest[i]) by {
        assert(rest[i] == path[start + i]);
    }
    if from - start < rest.len() {
        assert(rest[from - start] == path[from]);
    }
    lemma_trim_start(rest, from - start);
    let front = rest.skip(from - start);
    assert(front =~= path.skip(from));
    assert forall|i: int| to - from <= i < front.len() implies is_blank(#[trigger] front[i]) by {
        assert(front[i] == path[from + i]);
    }
    if to > from {
        assert(front[to - from - 1] == path[to - 1]);
    }
    lemma_trim_end(front, to - from);
    assert(front.take(to - from) =~= path.subrange(from, to));
}

/// The characters of a string, in order.
fn chars_of(s: &str) -> (chars: Vec<char>)
    ensures
        chars@ == s@,
{
    let mut chars: Vec<char> = Vec::new();
    for c in it: s.chars()
        invariant
            it.seq() == s@,
            chars@ == it.seq().take(it.index() as int),
    {
        chars.push(c);
    }
    chars
}

/// Whether `c` is whitespace.
pub fn is_blank_char(c: char) -> (blank: bool)
    ensures
        blank == is_blank(c),
{
    proof {
        reveal(is_blank);
    }
    let n: u32 = c as u32;
    (0x09 <= n && n <= 0x0d) || n == 0x20 || n == 0x85 || n == 0xa0 || n == 0x1680 || (0x2000 <= n
        && n <= 0x200a) || n == 0x2028 || n == 0x2029 || n == 0x202f || n == 0x205f || n == 0x3000
}

/// Whether `path` begins with `root`.
fn begins_with(path: &Vec<char>, root: &Vec<char>) -> (yes: bool)
    ensures
        yes == root@.is_prefix_of(path@),
{
    if root.len() > path.len() {
        return false;
    }
    let mut i: usize = 0;
    while i < root.len()
        invariant
            i <= root.len() <= path.len(),
            forall|k: int| 0 <= k < i ==> root@[k] == path@[k],
        decreases root.len() - i,
    {
        if root[i] != path[i] {
            assert(path@.subrange(0, root@.len() as int)[i as int] == path@[i as int]);
            return false;
        }
        i = i + 1;
    }
    assert(root@ =~= path@.subrange(0, root@.len() as int));
    true
}

/// Derives the relative path of a walked entry: takes `source_root` off the
/// front of `absolute_path`, where it stands there, and trims surrounding
/// whitespace from the rest.
pub fn relative_path(absolute_path: &str, source_root: &str) -> (relative: String)
    ensures
        relative@ == relative_of(absolute_path@, source_root@),
{
    let path = chars_of(absolute_path);
    let root = chars_of(source_root);
    let start: usize = if begins_with(&path, &root) {
        root.len()
    } else {
        0
    };
    assert(strip_root(path@, root@) == path@.skip(start as int)) by {
        assert(path@.skip(0) =~= path@);
    }
    let mut from: usize = start;
    while from < path.len() && is_blank_char(path[from])
        invariant
            start <= from <= path.len(),
            forall|k: int| start <= k < from ==> is_blank(#[trigger] path@[k]),
        decreases path.len() - from,
    {
        from = from + 1;
    }
    let mut to: usize = path.len();
    while to > from && is_blank_char(path[to - 1])
        invariant
            from <= to <= path.len(),
            forall|k: int| to <= k < path.len() ==> is_blank(#[trigger] path@[k]),
        decreases to,
    {
        to = to - 1;
    }
    proof {
        lemma_trimmed_range(path@, start as int, from as int, to as int);
    }
    absolute_path.substring_char(from, to).to_owned()
}

/// The path under the destination root at which a relative path lands: the
/// root with the relative path appended.
pub fn destination_path(destination_root: &str, relative_path: &str) -> (path: String)
    ensures
        path@ == destination_root@ + relative_path@,
{
    let mut path = destination_root.to_owned();
    path.append(relative_path);
    path
}

/// Brings a destination root into the form that `destination_path` expects:
/// one trailing `/` is removed.
pub fn normalize_destination_root(destination_root: &str) -> (root: String)
    ensures
        root@ == without_trailing_separator(destination_root@),
{
    let chars = chars_of(destination_root);
    let length = chars.len();
    if length > 0 && chars[length - 1] == '/' {
        assert(destination_root@.subrange(0, length - 1) =~= destination_root@.drop_last());
        destination_root.substring_char(0, length - 1).to_owned()
    } else {
        destination_root.to_owned()
    }
}

} // verus!
