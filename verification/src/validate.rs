//! Telling whether given directories make a well-formed tree.

use crate::digest::is_digest_text;
use crate::path::is_valid_name;
use crate::path::join;
use crate::path::join_path;
use crate::path::lemma_split_join;
use crate::path::split_path;
use crate::tree::find_name;
use crate::tree::has_dir;
use crate::tree::indexes;
use crate::tree::lemma_dir_index;
use crate::tree::lemma_name_index;
use crate::tree::listed_before;
use crate::tree::locate;
use crate::tree::lists;
use crate::tree::valid_children;
use crate::tree::valid_record;
use crate::tree::well_formed;
use crate::tree::Content;
use crate::tree::Directory;
use crate::tree::DirectoryView;
use crate::tree::Record;
use crate::tree::Tree;
use vstd::hash_map::StringHashMap;
use vstd::prelude::*;

verus! {

/// No two of the directories share a path.
pub open spec fn distinct_paths(tree: Seq<DirectoryView>) -> bool {
    forall|i: int, j: int|
        0 <= i < j < tree.len() ==> (#[trigger] tree[i]).path != (#[trigger] tree[j]).path
}

/// Each directory record of the directory at index `i` has its directory.
pub open spec fn records_resolve(tree: Seq<DirectoryView>, i: int) -> bool {
    forall|k: int|
        0 <= k < tree[i].children.len() && (#[trigger] tree[i].children[k]).is_dir() ==> has_dir(
            tree,
            join(tree[i].path, tree[i].children[k].name),
        )
}

/// Makes the index of the directories, if no two of them share a path.
fn index_paths(dirs: &Vec<Directory>) -> (made: Option<StringHashMap<usize>>)
    ensures
        made is Some <==> distinct_paths(dirs.deep_view()),
        made matches Some(index) ==> indexes(index@, dirs.deep_view()),
{
    let ghost tree = dirs.deep_view();
    let mut index: StringHashMap<usize> = StringHashMap::new();
    let mut j: usize = 0;
    while j < dirs.len()
        invariant
            j <= dirs.len(),
            tree == dirs.deep_view(),
            forall|a: int|
                0 <= a < j ==> index@.contains_key((#[trigger] tree[a]).path) && index@[tree[a].path]
                    == a,
            forall|path: Seq<char>| #[trigger]
                index@.contains_key(path) ==> index@[path] < j && tree[index@[path] as int].path
                    == path,
        decreases dirs.len() - j,
    {
        assert(tree[j as int].path == dirs[j as int].path@);
        if index.contains_key(dirs[j].path.as_str()) {
            proof {
                let first = index@[tree[j as int].path];
                assert(tree[first as int].path == tree[j as int].path);
            }
            return None;
        }
        let ghost before = index@;
        index.insert(dirs[j].path.clone(), j);
        assert forall|a: int| 0 <= a < j + 1 implies index@.contains_key(
            (#[trigger] tree[a]).path,
        ) && index@[tree[a].path] == a by {
            if a < j {
                assert(before.contains_key(tree[a].path));
            }
        }
        j = j + 1;
    }
    assert forall|a: int, b: int| 0 <= a < b < tree.len() implies (#[trigger] tree[a]).path != (
    #[trigger] tree[b]).path by {
        assert(index@[tree[a].path] == a && index@[tree[b].path] == b);
    }
    Some(index)
}

fn has_valid_children(children: &Vec<Record>) -> (valid: bool)
    ensures
        valid == valid_children(children.deep_view()),
{
    let ghost records = children.deep_view();
    let mut k: usize = 0;
    while k < children.len()
        invariant
            k <= children.len(),
            records == children.deep_view(),
            forall|l: int| 0 <= l < k ==> valid_record(#[trigger] records[l]),
            forall|a: int, b: int|
                0 <= a < b < k ==> (#[trigger] records[a]).name != (#[trigger] records[b]).name,
        decreases children.len() - k,
    {
        let record = &children[k];
        assert(records[k as int] == record@);
        if !is_valid_name(record.name.as_str()) {
            return false;
        }
        match &record.content {
            Content::Directory => {},
            Content::File { digest } => {
                if !is_digest_text(digest.as_str()) {
                    return false;
                }
            },
        }
        match find_name(children, &record.name) {
            Some(first) => {
                if first != k {
                    assert(records[first as int].name == records[k as int].name);
                    return false;
                }
            },
            None => {
                return false;
            },
        }
        assert forall|a: int, b: int| 0 <= a < b < k + 1 implies (#[trigger] records[a]).name != (
        #[trigger] records[b]).name by {
            if b == k {
                assert(children[a].name@ != children[k as int].name@);
            }
        }
        k = k + 1;
    }
    true
}

fn has_resolved_records(dirs: &Vec<Directory>, index: &StringHashMap<usize>, i: usize) -> (resolved:
    bool)
    requires
        i < dirs.len(),
        indexes(index@, dirs.deep_view()),
    ensures
        resolved == records_resolve(dirs.deep_view(), i as int),
{
    let ghost tree = dirs.deep_view();
    let directory = &dirs[i];
    assert(tree[i as int] == directory@);
    let mut k: usize = 0;
    while k < directory.children.len()
        invariant
            k <= directory.children.len(),
            tree == dirs.deep_view(),
            tree[i as int] == directory@,
            indexes(index@, tree),
            forall|l: int|
                0 <= l < k && (#[trigger] tree[i as int].children[l]).is_dir() ==> has_dir(
                    tree,
                    join(tree[i as int].path, tree[i as int].children[l].name),
                ),
        decreases directory.children.len() - k,
    {
        let record = &directory.children[k];
        assert(tree[i as int].children[k as int] == record@);
        match &record.content {
            Content::File { .. } => {},
            Content::Directory => {
                let path = join_path(directory.path.as_str(), record.name.as_str());
                if locate(index, dirs, path.as_str()).is_none() {
                    return false;
                }
            },
        }
        k = k + 1;
    }
    true
}

fn is_listed_before(dirs: &Vec<Directory>, index: &StringHashMap<usize>, j: usize) -> (listed: bool)
    requires
        0 < j < dirs.len(),
        distinct_paths(dirs.deep_view()),
        indexes(index@, dirs.deep_view()),
        forall|i: int|
            0 <= i < dirs.len() ==> valid_children((#[trigger] dirs.deep_view()[i]).children),
    ensures
        listed == listed_before(dirs.deep_view(), j as int),
{
    let ghost tree = dirs.deep_view();
    let path = &dirs[j].path;
    assert(tree[j as int].path == path@);
    let (parent, name) = split_path(path.as_str());
    proof {
        // Whoever lists this directory is the directory that the split names.
        if listed_before(tree, j as int) {
            let i = choose|i: int| 0 <= i < j && #[trigger] lists(tree, i, tree[j as int].path);
            let k = choose|k: int|
                0 <= k < tree[i].children.len() && (#[trigger] tree[i].children[k]).is_dir()
                    && join(tree[i].path, tree[i].children[k].name) == tree[j as int].path;
            assert(valid_children(tree[i].children));
            assert(valid_record(tree[i].children[k]));
            lemma_split_join(tree[i].path, tree[i].children[k].name);
            lemma_dir_index(tree, i);
            lemma_name_index(tree[i].children, k);
            assert(dirs[i].path@ == parent@);
            assert(dirs[i].children[k]@ == tree[i].children[k]);
        }
    }
    if !is_valid_name(name.as_str()) {
        return false;
    }
    let joined = join_path(parent.as_str(), name.as_str());
    if joined != *path {
        return false;
    }
    let i = match locate(index, dirs, parent.as_str()) {
        None => {
            return false;
        },
        Some(i) => i,
    };
    if i >= j {
        return false;
    }
    assert(tree[i as int] == dirs[i as int]@);
    let k = match find_name(&dirs[i].children, &name) {
        None => {
            return false;
        },
        Some(k) => k,
    };
    assert(tree[i as int].children[k as int] == dirs[i as int].children[k as int]@);
    match &dirs[i].children[k].content {
        Content::File { .. } => false,
        Content::Directory => {
            assert(lists(tree, i as int, tree[j as int].path));
            true
        },
    }
}

/// Makes the index of the directories, if they make a well-formed tree.
fn index_well_formed(dirs: &Vec<Directory>) -> (made: Option<StringHashMap<usize>>)
    ensures
        made is Some <==> well_formed(dirs.deep_view()),
        made matches Some(index) ==> indexes(index@, dirs.deep_view()),
{
    let ghost tree = dirs.deep_view();
    if dirs.len() == 0 {
        return None;
    }
    assert(tree[0].path == dirs[0].path@);
    if !dirs[0].path.as_str().is_empty() {
        return None;
    }
    let index = match index_paths(dirs) {
        None => {
            return None;
        },
        Some(index) => index,
    };
    let mut i: usize = 0;
    while i < dirs.len()
        invariant
            i <= dirs.len(),
            tree == dirs.deep_view(),
            indexes(index@, tree),
            forall|a: int| 0 <= a < i ==> valid_children((#[trigger] tree[a]).children),
            forall|a: int| 0 <= a < i ==> records_resolve(tree, a),
        decreases dirs.len() - i,
    {
        assert(tree[i as int].children == dirs[i as int].children.deep_view());
        if !has_valid_children(&dirs[i].children) {
            return None;
        }
        if !has_resolved_records(dirs, &index, i) {
            assert(!records_resolve(tree, i as int));
            return None;
        }
        i = i + 1;
    }
    let mut j: usize = 1;
    while j < dirs.len()
        invariant
            1 <= j <= dirs.len(),
            tree == dirs.deep_view(),
            distinct_paths(tree),
            indexes(index@, tree),
            forall|a: int| 0 <= a < dirs.len() ==> valid_children((#[trigger] tree[a]).children),
            forall|b: int| 0 < b < j ==> #[trigger] listed_before(tree, b),
        decreases dirs.len() - j,
    {
        if !is_listed_before(dirs, &index, j) {
            return None;
        }
        j = j + 1;
    }
    assert forall|a: int, k: int|
        0 <= a < tree.len() && 0 <= k < tree[a].children.len() && (
        #[trigger] tree[a].children[k]).is_dir() implies has_dir(
        tree,
        join(tree[a].path, tree[a].children[k].name),
    ) by {
        assert(records_resolve(tree, a));
    }
    Some(index)
}

/// Tells whether the directories make a well-formed tree.
pub fn is_well_formed(dirs: &Vec<Directory>) -> (valid: bool)
    ensures
        valid == well_formed(dirs.deep_view()),
{
    index_well_formed(dirs).is_some()
}

impl Tree {
    /// The tree made of `dirs`, if they make a well-formed tree.
    pub fn from_directories(dirs: Vec<Directory>) -> (tree: Option<Tree>)
        ensures
            tree is Some <==> well_formed(dirs.deep_view()),
            tree matches Some(made) ==> made@ == dirs.deep_view(),
    {
        match index_well_formed(&dirs) {
            Some(index) => Some(Tree::from_well_formed(dirs, index)),
            None => None,
        }
    }
}

} // verus!
