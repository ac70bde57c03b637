//! The tree model: for each directory of a tree, by its relative path, the
//! records of its immediate children.

use crate::digest::is_digest;
use crate::path::join;
use crate::path::lemma_join_injective;
use crate::path::lemma_split_join;
use crate::path::valid_name;
use vstd::hash_map::StringHashMap;
use vstd::prelude::*;

verus! {

/// What a record stands for: a directory, or a regular file with the digest
/// of its content.
#[derive(Clone, Debug, PartialEq, Eq)]
pub enum Content {
    Directory,
    File { digest: String },
}

/// One entry of a directory.
#[derive(Clone, Debug, PartialEq, Eq)]
pub struct Record {
    pub name: String,
    pub content: Content,
}

/// A record as contracts see it: its name, and its digest if it is a file.
pub struct RecordView {
    pub name: Seq<char>,
    pub digest: Option<Seq<char>>,
}

impl RecordView {
    pub open spec fn is_dir(self) -> bool {
        self.digest is None
    }
}

impl View for Record {
    type V = RecordView;

    open spec fn view(&self) -> RecordView {
        RecordView {
            name: self.name@,
            digest: match self.content {
                Content::Directory => None,
                Content::File { digest } => Some(digest@),
            },
        }
    }
}

impl DeepView for Record {
    type V = RecordView;

    open spec fn deep_view(&self) -> RecordView {
        self@
    }
}

/// One directory of a tree: its path relative to the root, and its children.
#[derive(Clone, Debug, PartialEq, Eq)]
pub struct Directory {
    pub path: String,
    pub children: Vec<Record>,
}

/// A directory as contracts see it.
pub struct DirectoryView {
    pub path: Seq<char>,
    pub children: Seq<RecordView>,
}

impl View for Directory {
    type V = DirectoryView;

    open spec fn view(&self) -> DirectoryView {
        DirectoryView { path: self.path@, children: self.children.deep_view() }
    }
}

impl DeepView for Directory {
    type V = DirectoryView;

    open spec fn deep_view(&self) -> DirectoryView {
        self@
    }
}

/// The tree holds a directory at `path`.
pub open spec fn has_dir(tree: Seq<DirectoryView>, path: Seq<char>) -> bool {
    exists|i: int| 0 <= i < tree.len() && (#[trigger] tree[i]).path == path
}

/// Where the tree holds the directory at `path`.
pub open spec fn dir_index(tree: Seq<DirectoryView>, path: Seq<char>) -> int {
    choose|i: int| 0 <= i < tree.len() && (#[trigger] tree[i]).path == path
}

/// The children of the directory at `path`.
pub open spec fn children_of(tree: Seq<DirectoryView>, path: Seq<char>) -> Seq<RecordView> {
    tree[dir_index(tree, path)].children
}

/// One of `children` is called `name`.
pub open spec fn has_name(children: Seq<RecordView>, name: Seq<char>) -> bool {
    exists|k: int| 0 <= k < children.len() && (#[trigger] children[k]).name == name
}

/// Where `children` holds the record called `name`.
pub open spec fn name_index(children: Seq<RecordView>, name: Seq<char>) -> int {
    choose|k: int| 0 <= k < children.len() && (#[trigger] children[k]).name == name
}

/// A record has a base name, and a file's digest has the shape of one.
pub open spec fn valid_record(record: RecordView) -> bool {
    &&& valid_name(record.name)
    &&& record.digest matches Some(digest) ==> is_digest(digest)
}

/// The records of one directory are valid and no two share a name.
pub open spec fn valid_children(children: Seq<RecordView>) -> bool {
    &&& forall|k: int| 0 <= k < children.len() ==> valid_record(#[trigger] children[k])
    &&& forall|k: int, l: int|
        0 <= k < l < children.len() ==> (#[trigger] children[k]).name != (
        #[trigger] children[l]).name
}

/// The directory at index `i` has a directory record whose path is `path`.
pub open spec fn lists(tree: Seq<DirectoryView>, i: int, path: Seq<char>) -> bool {
    exists|k: int|
        0 <= k < tree[i].children.len() && (#[trigger] tree[i].children[k]).is_dir() && join(
            tree[i].path,
            tree[i].children[k].name,
        ) == path
}

/// The directory at index `j` is a child of one that stands before it.
pub open spec fn listed_before(tree: Seq<DirectoryView>, j: int) -> bool {
    exists|i: int| 0 <= i < j && #[trigger] lists(tree, i, tree[j].path)
}

/// What holds of every tree:
/// the root comes first; no two directories share a path; in each directory
/// the records are valid and their names differ; each directory record has
/// its own directory in the tree; and each directory but the root is listed
/// by a directory that stands before it.
pub open spec fn well_formed(tree: Seq<DirectoryView>) -> bool {
    &&& tree.len() > 0
    &&& tree[0].path.len() == 0
    &&& forall|i: int, j: int|
        0 <= i < j < tree.len() ==> (#[trigger] tree[i]).path != (#[trigger] tree[j]).path
    &&& forall|i: int| 0 <= i < tree.len() ==> valid_children((#[trigger] tree[i]).children)
    &&& forall|i: int, k: int|
        0 <= i < tree.len() && 0 <= k < tree[i].children.len() && (
        #[trigger] tree[i].children[k]).is_dir() ==> has_dir(
            tree,
            join(tree[i].path, tree[i].children[k].name),
        )
    &&& forall|j: int| 0 < j < tree.len() ==> #[trigger] listed_before(tree, j)
}

/// The tree of an empty directory: the root, without children.
pub open spec fn empty_tree() -> Seq<DirectoryView> {
    seq![DirectoryView { path: Seq::empty(), children: Seq::empty() }]
}

/// In a tree without duplicates a directory is found where it stands.
pub proof fn lemma_dir_index(tree: Seq<DirectoryView>, i: int)
    requires
        0 <= i < tree.len(),
        forall|a: int, b: int|
            0 <= a < b < tree.len() ==> (#[trigger] tree[a]).path != (#[trigger] tree[b]).path,
    ensures
        has_dir(tree, tree[i].path),
        dir_index(tree, tree[i].path) == i,
{
    let found = dir_index(tree, tree[i].path);
    if found < i {
        assert(tree[found].path != tree[i].path);
    } else if i < found {
        assert(tree[i].path != tree[found].path);
    }
}

/// Among children with different names a record is found where it stands.
pub proof fn lemma_name_index(children: Seq<RecordView>, k: int)
    requires
        0 <= k < children.len(),
        valid_children(children),
    ensures
        has_name(children, children[k].name),
        name_index(children, children[k].name) == k,
{
    let found = name_index(children, children[k].name);
    if found < k {
        assert(children[found].name != children[k].name);
    } else if k < found {
        assert(children[k].name != children[found].name);
    }
}

/// Looks among `children` for the record called `name`.
pub fn find_name(children: &Vec<Record>, name: &String) -> (found: Option<usize>)
    ensures
        match found {
            Some(k) => k < children.len() && children[k as int].name@ == name@ && forall|l: int|
                0 <= l < k ==> children[l].name@ != name@,
            None => forall|l: int| 0 <= l < children.len() ==> children[l].name@ != name@,
        },
        found is Some <==> has_name(children.deep_view(), name@),
{
    let mut k: usize = 0;
    while k < children.len()
        invariant
            k <= children.len(),
            forall|l: int| 0 <= l < k ==> children[l].name@ != name@,
        decreases children.len() - k,
    {
        if children[k].name == *name {
            assert(children.deep_view()[k as int].name == name@);
            return Some(k);
        }
        k = k + 1;
    }
    assert forall|l: int| 0 <= l < children.deep_view().len() implies (
    #[trigger] children.deep_view()[l]).name != name@ by {
        assert(children[l].name@ != name@);
    }
    None
}

/// A record equal to `record`.
pub fn clone_record(record: &Record) -> (copy: Record)
    ensures
        copy@ == record@,
{
    let content = match &record.content {
        Content::Directory => Content::Directory,
        Content::File { digest } => Content::File { digest: digest.clone() },
    };
    Record { name: record.name.clone(), content }
}

/// `index` tells where each directory of the tree stands, and holds no
/// other path.
pub open spec fn indexes(index: Map<Seq<char>, usize>, tree: Seq<DirectoryView>) -> bool {
    &&& forall|i: int|
        0 <= i < tree.len() ==> index.contains_key((#[trigger] tree[i]).path) && index[tree[i].path]
            == i
    &&& forall|path: Seq<char>| #[trigger]
        index.contains_key(path) ==> index[path] < tree.len() && tree[index[path] as int].path
            == path
}

/// Looks the directory at `path` up in the index of `dirs`.
pub(crate) fn locate(index: &StringHashMap<usize>, dirs: &Vec<Directory>, path: &str) -> (found: Option<
    usize,
>)
    requires
        indexes(index@, dirs.deep_view()),
    ensures
        found is Some <==> has_dir(dirs.deep_view(), path@),
        found matches Some(i) ==> i < dirs.len() && dirs[i as int].path@ == path@ && i == dir_index(
            dirs.deep_view(),
            path@,
        ),
{
    let ghost tree = dirs.deep_view();
    match index.get(path) {
        Some(at) => {
            assert(tree[*at as int].path == path@);
            assert(tree[dir_index(tree, path@)].path == path@);
            Some(*at)
        },
        None => {
            assert forall|j: int| 0 <= j < tree.len() implies (#[trigger] tree[j]).path
                != path@ by {}
            None
        },
    }
}

/// The tree model of one directory tree. Every value is well formed.
pub struct Tree {
    dirs: Vec<Directory>,
    index: StringHashMap<usize>,
}

impl View for Tree {
    type V = Seq<DirectoryView>;

    /// The directories in the order in which they joined the tree.
    closed spec fn view(&self) -> Seq<DirectoryView> {
        self.dirs.deep_view()
    }
}

impl Tree {
    #[verifier::type_invariant]
    spec fn holds(self) -> bool {
        &&& well_formed(self.dirs.deep_view())
        &&& indexes(self.index@, self.dirs.deep_view())
    }

    /// The tree of an empty directory.
    pub fn new() -> (tree: Tree)
        ensures
            tree@ == empty_tree(),
    {
        let mut dirs: Vec<Directory> = Vec::new();
        dirs.push(Directory { path: String::new(), children: Vec::new() });
        let mut index: StringHashMap<usize> = StringHashMap::new();
        index.insert(String::new(), 0);
        proof {
            assert(dirs.deep_view() =~= empty_tree()) by {
                assert(dirs[0].children.deep_view() =~= Seq::<RecordView>::empty());
            }
        }
        Tree { dirs, index }
    }

    /// The tree made of directories that are known to be well formed, with
    /// their index.
    pub(crate) fn from_well_formed(dirs: Vec<Directory>, index: StringHashMap<usize>) -> (tree:
        Tree)
        requires
            well_formed(dirs.deep_view()),
            indexes(index@, dirs.deep_view()),
        ensures
            tree@ == dirs.deep_view(),
    {
        Tree { dirs, index }
    }

    /// Gives up the tree for its directories and their index.
    pub(crate) fn into_parts(self) -> (parts: (Vec<Directory>, StringHashMap<usize>))
        ensures
            parts.0.deep_view() == self@,
            well_formed(self@),
            indexes(parts.1@, self@),
    {
        proof {
            use_type_invariant(&self);
        }
        (self.dirs, self.index)
    }

    /// Gives up the tree for its directories, in order.
    pub fn into_directories(self) -> (dirs: Vec<Directory>)
        ensures
            dirs.deep_view() == self@,
            well_formed(self@),
    {
        proof {
            use_type_invariant(&self);
        }
        self.dirs
    }

    /// The directories of the tree, in order.
    pub fn directories(&self) -> (dirs: &Vec<Directory>)
        ensures
            dirs.deep_view() == self@,
            well_formed(self@),
    {
        proof {
            use_type_invariant(self);
        }
        &self.dirs
    }

    /// The children of the directory at `path`, if the tree has that directory.
    pub fn children(&self, path: &str) -> (found: Option<&Vec<Record>>)
        ensures
            found is Some <==> has_dir(self@, path@),
            found matches Some(children) ==> children.deep_view() == children_of(self@, path@),
    {
        proof {
            use_type_invariant(self);
        }
        match locate(&self.index, &self.dirs, path) {
            None => None,
            Some(i) => Some(&self.dirs[i].children),
        }
    }
}

/// One entry met while walking a directory: the record, and the path of the
/// directory that holds it, relative to the root of the walk.
#[derive(Clone, Debug, PartialEq, Eq)]
pub struct Entry {
    pub parent: String,
    pub record: Record,
}

/// An entry as contracts see it.
pub struct EntryView {
    pub parent: Seq<char>,
    pub record: RecordView,
}

impl View for Entry {
    type V = EntryView;

    open spec fn view(&self) -> EntryView {
        EntryView { parent: self.parent@, record: self.record@ }
    }
}

impl DeepView for Entry {
    type V = EntryView;

    open spec fn deep_view(&self) -> EntryView {
        self@
    }
}

/// Why an entry cannot join a tree.
#[derive(Clone, Copy, Debug, PartialEq, Eq)]
pub enum EntryError {
    /// The name is empty or holds a separator.
    InvalidName,
    /// The digest of a file has not the shape of one.
    InvalidDigest,
    /// The tree has no directory at the entry's parent path.
    UnknownParent,
    /// The parent directory has a record of that name already.
    DuplicateName,
}

/// The first entry that could not join the tree, and why.
#[derive(Clone, Copy, Debug, PartialEq, Eq)]
pub struct TreeError {
    pub index: usize,
    pub reason: EntryError,
}

/// Why `entry` cannot join `tree`, if it cannot.
pub open spec fn entry_error(tree: Seq<DirectoryView>, entry: EntryView) -> Option<EntryError> {
    if !valid_name(entry.record.name) {
        Some(EntryError::InvalidName)
    } else if entry.record.digest is Some && !is_digest(entry.record.digest->0) {
        Some(EntryError::InvalidDigest)
    } else if !has_dir(tree, entry.parent) {
        Some(EntryError::UnknownParent)
    } else if has_name(children_of(tree, entry.parent), entry.record.name) {
        Some(EntryError::DuplicateName)
    } else {
        None
    }
}

/// The tree with `entry` in it: its record comes last among the children of
/// its parent, and if it is a directory, its own empty directory comes last
/// in the tree.
pub open spec fn insert(tree: Seq<DirectoryView>, entry: EntryView) -> Seq<DirectoryView> {
    let at = dir_index(tree, entry.parent);
    let grown = tree.update(
        at,
        DirectoryView { path: tree[at].path, children: tree[at].children.push(entry.record) },
    );
    if entry.record.is_dir() {
        grown.push(
            DirectoryView { path: join(entry.parent, entry.record.name), children: Seq::empty() },
        )
    } else {
        grown
    }
}

/// The tree that the entries of a walk make, taken in order from the tree of
/// an empty directory; or the first entry that cannot join, and why.
pub open spec fn build(entries: Seq<EntryView>) -> Result<Seq<DirectoryView>, TreeError>
    decreases entries.len(),
{
    if entries.len() == 0 {
        Ok(empty_tree())
    } else {
        match build(entries.drop_last()) {
            Err(error) => Err(error),
            Ok(tree) => match entry_error(tree, entries.last()) {
                Some(reason) => Err(
                    TreeError { index: (entries.len() - 1) as usize, reason },
                ),
                None => Ok(insert(tree, entries.last())),
            },
        }
    }
}

/// An entry that can join a well-formed tree leaves it well formed.
pub proof fn lemma_insert_well_formed(tree: Seq<DirectoryView>, entry: EntryView)
    requires
        well_formed(tree),
        entry_error(tree, entry) is None,
    ensures
        well_formed(insert(tree, entry)),
{
    let at = dir_index(tree, entry.parent);
    let next = insert(tree, entry);
    let path = join(entry.parent, entry.record.name);
    let old_len = tree.len() as int;
    lemma_split_join(entry.parent, entry.record.name);
    assert(tree[at].path == entry.parent);
    assert forall|i: int| 0 <= i < old_len implies (#[trigger] next[i]).path == tree[i].path by {}
    // No directory of the tree stands at the new path.
    assert forall|j: int| 0 <= j < old_len implies (#[trigger] tree[j]).path != path by {
        if j > 0 && tree[j].path == path {
            assert(listed_before(tree, j));
            let i = choose|i: int| 0 <= i < j && #[trigger] lists(tree, i, tree[j].path);
            let k = choose|k: int|
                0 <= k < tree[i].children.len() && (#[trigger] tree[i].children[k]).is_dir()
                    && join(tree[i].path, tree[i].children[k].name) == tree[j].path;
            assert(valid_children(tree[i].children));
            assert(valid_record(tree[i].children[k]));
            lemma_join_injective(
                tree[i].path,
                tree[i].children[k].name,
                entry.parent,
                entry.record.name,
            );
            lemma_dir_index(tree, i);
            assert(tree[at].children[k].name == entry.record.name);
        }
    }
    assert forall|i: int, j: int| 0 <= i < j < next.len() implies (#[trigger] next[i]).path != (
    #[trigger] next[j]).path by {
        if j < old_len {
            assert(tree[i].path != tree[j].path);
        } else {
            assert(tree[i].path != path);
        }
    }
    assert forall|i: int| 0 <= i < next.len() implies valid_children(
        (#[trigger] next[i]).children,
    ) by {
        if i < old_len {
            assert(valid_children(tree[i].children));
            if i == at {
                let grown = tree[at].children.push(entry.record);
                assert forall|k: int, l: int| 0 <= k < l < grown.len() implies (
                #[trigger] grown[k]).name != (#[trigger] grown[l]).name by {
                    if l == grown.len() - 1 {
                        assert(tree[at].children[k].name != entry.record.name);
                    }
                }
            }
        }
    }
    assert forall|i: int, k: int|
        0 <= i < next.len() && 0 <= k < next[i].children.len() && (
        #[trigger] next[i].children[k]).is_dir() implies has_dir(
        next,
        join(next[i].path, next[i].children[k].name),
    ) by {
        if i == at && k == tree[at].children.len() {
            assert(next[old_len].path == path);
        } else {
            assert(tree[i].children[k] == next[i].children[k]);
            let target = join(tree[i].path, tree[i].children[k].name);
            assert(has_dir(tree, target));
            let at_target = dir_index(tree, target);
            assert(next[at_target].path == target);
        }
    }
    assert forall|j: int| 0 < j < next.len() implies #[trigger] listed_before(next, j) by {
        if j < old_len {
            assert(listed_before(tree, j));
            let i = choose|i: int| 0 <= i < j && #[trigger] lists(tree, i, tree[j].path);
            let k = choose|k: int|
                0 <= k < tree[i].children.len() && (#[trigger] tree[i].children[k]).is_dir()
                    && join(tree[i].path, tree[i].children[k].name) == tree[j].path;
            assert(next[i].children[k] == tree[i].children[k]);
            assert(lists(next, i, next[j].path));
        } else {
            let k = tree[at].children.len() as int;
            assert(next[at].children[k] == entry.record);
            assert(lists(next, at, next[j].path));
        }
    }
}

/// Whatever `build` makes is well formed.
pub proof fn lemma_build_well_formed(entries: Seq<EntryView>)
    ensures
        build(entries) matches Ok(tree) ==> well_formed(tree),
    decreases entries.len(),
{
    if entries.len() > 0 {
        lemma_build_well_formed(entries.drop_last());
        if let Ok(tree) = build(entries.drop_last()) {
            if entry_error(tree, entries.last()) is None {
                lemma_insert_well_formed(tree, entries.last());
            }
        }
    }
}

} // verus!
