//! Relative paths: forward-slash joined names, the empty path being the root
//! of a tree.

use vstd::prelude::*;
use vstd::std_specs::iter::IteratorSpec;
use vstd::string::StrSliceExecFns;
use vstd::string::StringExecFns;

verus! {

/// The path of the entry called `name` in the directory at `parent`.
pub open spec fn join(parent: Seq<char>, name: Seq<char>) -> Seq<char> {
    if parent.len() == 0 {
        name
    } else {
        parent + seq!['/'] + name
    }
}

/// A base name: not empty, and free of separators.
pub open spec fn valid_name(name: Seq<char>) -> bool {
    &&& name.len() > 0
    &&& forall|i: int| 0 <= i < name.len() ==> name[i] != '/'
}

/// `path` lies below the directory at `dir`, at any depth.
pub open spec fn below(path: Seq<char>, dir: Seq<char>) -> bool {
    if dir.len() == 0 {
        path.len() > 0
    } else {
        &&& path.len() > dir.len()
        &&& path.subrange(0, dir.len() as int) == dir
        &&& path[dir.len() as int] == '/'
    }
}

/// `path` is `root` itself or lies below it.
pub open spec fn within(path: Seq<char>, root: Seq<char>) -> bool {
    path == root || below(path, root)
}

/// The index of the last separator of `path`, or -1 where it has none.
pub open spec fn last_separator(path: Seq<char>) -> int
    decreases path.len(),
{
    if path.len() == 0 {
        -1
    } else if path.last() == '/' {
        path.len() - 1
    } else {
        last_separator(path.drop_last())
    }
}

/// What stands before the last separator of `path`; empty where it has none.
pub open spec fn parent_of(path: Seq<char>) -> Seq<char> {
    let at = last_separator(path);
    if at < 0 {
        Seq::empty()
    } else {
        path.subrange(0, at)
    }
}

/// What stands behind the last separator of `path`; all of it where it has none.
pub open spec fn name_of(path: Seq<char>) -> Seq<char> {
    path.subrange(last_separator(path) + 1, path.len() as int)
}

/// `last_separator` is in range, points at a separator, and none follows it.
pub proof fn lemma_last_separator(path: Seq<char>)
    ensures
        -1 <= last_separator(path) < path.len(),
        last_separator(path) >= 0 ==> path[last_separator(path)] == '/',
        forall|i: int| last_separator(path) < i < path.len() ==> path[i] != '/',
    decreases path.len(),
{
    if path.len() > 0 && path.last() != '/' {
        let front = path.drop_last();
        lemma_last_separator(front);
        assert forall|i: int| last_separator(path) < i < path.len() implies path[i] != '/' by {
            if i < front.len() {
                assert(front[i] == path[i]);
            }
        }
    }
}

/// A separator at `at` with none behind it is the last one.
pub proof fn lemma_last_separator_is(path: Seq<char>, at: int)
    requires
        -1 <= at < path.len(),
        at >= 0 ==> path[at] == '/',
        forall|i: int| at < i < path.len() ==> path[i] != '/',
    ensures
        last_separator(path) == at,
{
    lemma_last_separator(path);
}

/// Joining and splitting are inverse: a joined path splits into the very
/// parent and name it was made of.
pub proof fn lemma_split_join(parent: Seq<char>, name: Seq<char>)
    requires
        valid_name(name),
    ensures
        parent_of(join(parent, name)) == parent,
        name_of(join(parent, name)) == name,
        join(parent, name).len() > parent.len(),
        below(join(parent, name), parent),
{
    let path = join(parent, name);
    if parent.len() == 0 {
        lemma_last_separator_is(path, -1);
        assert(path.subrange(0, path.len() as int) =~= path);
    } else {
        let at = parent.len() as int;
        assert(path[at] == '/');
        assert forall|i: int| at < i < path.len() implies path[i] != '/' by {
            assert(path[i] == name[i - at - 1]);
        }
        lemma_last_separator_is(path, at);
        assert(path.subrange(0, at) =~= parent);
        assert(path.subrange(at + 1, path.len() as int) =~= name);
    }
}

/// Two entries with the same path have the same parent and the same name.
pub proof fn lemma_join_injective(
    parent_a: Seq<char>,
    name_a: Seq<char>,
    parent_b: Seq<char>,
    name_b: Seq<char>,
)
    requires
        valid_name(name_a),
        valid_name(name_b),
        join(parent_a, name_a) == join(parent_b, name_b),
    ensures
        parent_a == parent_b,
        name_a == name_b,
{
    lemma_split_join(parent_a, name_a);
    lemma_split_join(parent_b, name_b);
}

/// What lies below a directory that lies within another lies below the other too.
pub proof fn lemma_below_within(path: Seq<char>, dir: Seq<char>, root: Seq<char>)
    requires
        below(path, dir),
        within(dir, root),
    ensures
        below(path, root),
{
    if dir != root && root.len() > 0 {
        assert(path.subrange(0, root.len() as int) =~= dir.subrange(0, root.len() as int));
        assert(path[root.len() as int] == dir[root.len() as int]);
    }
}

/// Two directories that hold one path are nested: one lies within the other.
pub proof fn lemma_within_comparable(path: Seq<char>, a: Seq<char>, b: Seq<char>)
    requires
        within(path, a),
        within(path, b),
    ensures
        within(a, b) || within(b, a),
{
    if a.len() < b.len() {
        lemma_within_nested(path, a, b);
    } else if b.len() < a.len() {
        lemma_within_nested(path, b, a);
    } else if a.len() > 0 {
        if path != a && path != b {
            assert(a =~= b);
        }
    } else {
        assert(a =~= b);
    }
}

proof fn lemma_within_nested(path: Seq<char>, short: Seq<char>, long: Seq<char>)
    requires
        within(path, short),
        within(path, long),
        short.len() < long.len(),
    ensures
        below(long, short),
{
    if short.len() > 0 {
        assert(path.len() >= long.len());
        assert(long.subrange(0, short.len() as int) =~= path.subrange(0, short.len() as int)) by {
            if path != long {
                assert forall|i: int| 0 <= i < short.len() implies long[i] == path[i] by {
                    assert(path.subrange(0, long.len() as int)[i] == long[i]);
                }
            }
        }
        assert(long[short.len() as int] == path[short.len() as int]) by {
            if path != long {
                assert(path.subrange(0, long.len() as int)[short.len() as int] == long[short.len() as int]);
            }
        }
    }
}

/// The directory that holds an entry lying below `root` lies within `root`.
pub proof fn lemma_parent_within(parent: Seq<char>, name: Seq<char>, root: Seq<char>)
    requires
        valid_name(name),
        below(join(parent, name), root),
    ensures
        within(parent, root),
{
    let path = join(parent, name);
    if root.len() > 0 && parent != root {
        let at = root.len() as int;
        if parent.len() == 0 {
            assert(name[at] == '/');
        } else if parent.len() < root.len() {
            assert(path[at] == name[at - parent.len() - 1]);
        } else if parent.len() == root.len() {
            assert(parent =~= path.subrange(0, at));
        } else {
            assert(parent.subrange(0, at) =~= path.subrange(0, at));
            assert(parent[at] == path[at]);
        }
    } else if root.len() == 0 && parent.len() == 0 {
        assert(parent =~= root);
    }
}

/// Joins a directory's path and the name of one of its entries.
pub fn join_path(parent: &str, name: &str) -> (path: String)
    ensures
        path@ == join(parent@, name@),
{
    if parent.is_empty() {
        String::from_str(name)
    } else {
        let mut path = String::from_str(parent);
        path.append("/");
        path.append(name);
        proof {
            reveal_strlit("/");
            assert("/"@ =~= seq!['/']);
        }
        path
    }
}

/// The path made of `names`, from the root down.
pub open spec fn join_all(names: Seq<Seq<char>>) -> Seq<char>
    decreases names.len(),
{
    if names.len() == 0 {
        Seq::empty()
    } else {
        join(join_all(names.drop_last()), names.last())
    }
}

/// Joins the names on the way from the root to an entry into its path.
pub fn join_names(names: &Vec<String>) -> (path: String)
    ensures
        path@ == join_all(names.deep_view()),
{
    let ghost all = names.deep_view();
    let mut path = String::new();
    let mut i: usize = 0;
    assert(all.subrange(0, 0) =~= Seq::<Seq<char>>::empty());
    while i < names.len()
        invariant
            i <= names.len(),
            all == names.deep_view(),
            path@ == join_all(all.subrange(0, i as int)),
        decreases names.len() - i,
    {
        proof {
            let taken = all.subrange(0, i + 1);
            assert(taken.drop_last() =~= all.subrange(0, i as int));
            assert(taken.last() == names[i as int]@);
        }
        path = join_path(path.as_str(), names[i].as_str());
        i = i + 1;
    }
    assert(all.subrange(0, all.len() as int) =~= all);
    path
}

/// Tells whether `name` can name an entry: it is not empty and holds no separator.
pub fn is_valid_name(name: &str) -> (valid: bool)
    ensures
        valid == valid_name(name@),
{
    let mut clean = true;
    for c in it: name.chars()
        invariant
            it.seq() == name@,
            clean == (forall|i: int| 0 <= i < it.index() ==> name@[i] != '/'),
    {
        if c == '/' {
            clean = false;
        }
    }
    clean && !name.is_empty()
}

/// Splits a path at its last separator into the path of the directory that
/// holds the entry and the entry's name.
pub fn split_path(path: &str) -> (parts: (String, String))
    ensures
        parts.0@ == parent_of(path@),
        parts.1@ == name_of(path@),
{
    let len = path.unicode_len();
    let mut at: Option<usize> = None;
    let mut seen: usize = 0;
    for c in it: path.chars()
        invariant
            it.seq() == path@,
            len == path@.len(),
            seen == it.index(),
            seen <= len,
            match at {
                Some(i) => i < seen && last_separator(path@.subrange(0, seen as int)) == i,
                None => last_separator(path@.subrange(0, seen as int)) == -1,
            },
    {
        proof {
            let before = path@.subrange(0, seen as int);
            let after = path@.subrange(0, seen + 1);
            assert(after.drop_last() =~= before);
            assert(after.last() == c);
        }
        if c == '/' {
            at = Some(seen);
        }
        seen = seen + 1;
    }
    proof {
        assert(path@.subrange(0, len as int) =~= path@);
    }
    match at {
        None => (String::new(), String::from_str(path)),
        Some(i) => {
            let parent = path.substring_char(0, i);
            let name = path.substring_char(i + 1, len);
            (String::from_str(parent), String::from_str(name))
        },
    }
}

} // verus!
