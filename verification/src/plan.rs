//! The reconciler: from the tree model of a reference directory and that of a
//! target directory, the operations that would make the target equal to the
//! reference. Nothing is carried out.

use crate::creates::creates_ordered;
use crate::creates::lemma_creates_come_first;
use crate::creates::on_disk;
use crate::deletes::deletes_ordered;
use crate::deletes::lemma_deletes_come_deepest_first;
use crate::parents::lemma_parents_are_there;
use crate::parents::supplied;
use crate::path::join;
use crate::path::join_path;
use crate::tree::children_of;
use crate::tree::dir_index;
use crate::tree::find_name;
use crate::tree::has_dir;
use crate::tree::has_name;
use crate::tree::lemma_name_index;
use crate::tree::name_index;
use crate::tree::valid_children;
use crate::tree::well_formed;
use crate::tree::Content;
use crate::tree::Directory;
use crate::tree::DirectoryView;
use crate::tree::Record;
use crate::tree::RecordView;
use crate::tree::Tree;
use vstd::hash_map::StringHashMap;
use vstd::prelude::*;
use vstd::string::StringExecFns;

verus! {

/// What is to be done at a path.
#[derive(Clone, Copy, Debug, PartialEq, Eq)]
pub enum Action {
    /// Make the path a directory.
    Create,
    /// Copy the content of the reference's file at the path to the target.
    Copy,
    /// Remove what the target has at the path.
    Delete,
}

/// One planned operation.
#[derive(Clone, Debug, PartialEq, Eq)]
pub struct Operation {
    pub action: Action,
    pub path: String,
}

/// An operation as contracts see it.
pub struct OperationView {
    pub action: Action,
    pub path: Seq<char>,
}

impl View for Operation {
    type V = OperationView;

    open spec fn view(&self) -> OperationView {
        OperationView { action: self.action, path: self.path@ }
    }
}

impl DeepView for Operation {
    type V = OperationView;

    open spec fn deep_view(&self) -> OperationView {
        self@
    }
}

pub open spec fn create(path: Seq<char>) -> OperationView {
    OperationView { action: Action::Create, path }
}

pub open spec fn copy(path: Seq<char>) -> OperationView {
    OperationView { action: Action::Copy, path }
}

pub open spec fn delete(path: Seq<char>) -> OperationView {
    OperationView { action: Action::Delete, path }
}

/// The length of the longest directory path of a tree.
pub open spec fn longest_path(tree: Seq<DirectoryView>) -> nat
    decreases tree.len(),
{
    if tree.len() == 0 {
        0
    } else {
        let front = longest_path(tree.drop_last());
        if tree.last().path.len() > front {
            tree.last().path.len()
        } else {
            front
        }
    }
}

/// No directory path of a tree is longer than the longest.
pub proof fn lemma_longest_path(tree: Seq<DirectoryView>, i: int)
    requires
        0 <= i < tree.len(),
    ensures
        tree[i].path.len() <= longest_path(tree),
    decreases tree.len(),
{
    if i < tree.len() - 1 {
        lemma_longest_path(tree.drop_last(), i);
    }
}

/// The copy-expansion of a record of the reference that the target lacks: a
/// file is copied; a directory is created, and then all that the reference
/// lists under it is expanded in turn, in the order of the listing.
pub open spec fn expand(
    reference: Seq<DirectoryView>,
    parent: Seq<char>,
    record: RecordView,
) -> Seq<OperationView>
    decreases longest_path(reference) - parent.len(), 0int,
{
    let path = join(parent, record.name);
    if !record.is_dir() {
        seq![copy(path)]
    } else if record.name.len() > 0 && has_dir(reference, path) {
        proof {
            lemma_longest_path(reference, dir_index(reference, path));
        }
        seq![create(path)] + expand_all(reference, path, children_of(reference, path))
    } else {
        seq![create(path)]
    }
}

/// The expansions of `records`, all children of `parent`, one after another.
pub open spec fn expand_all(
    reference: Seq<DirectoryView>,
    parent: Seq<char>,
    records: Seq<RecordView>,
) -> Seq<OperationView>
    decreases longest_path(reference) - parent.len(), records.len() + 1,
{
    if records.len() == 0 {
        Seq::empty()
    } else {
        expand_all(reference, parent, records.drop_last()) + expand(
            reference,
            parent,
            records.last(),
        )
    }
}

/// What one entry of the target calls for. `known` holds the records that
/// the reference has for the entry's directory, if it has that directory.
/// An entry that the reference does not have, or has as the other type, is
/// deleted; a file whose digest differs is copied; nothing else is done.
pub open spec fn entry_operation(
    known: Option<Seq<RecordView>>,
    parent: Seq<char>,
    record: RecordView,
) -> Option<OperationView> {
    let path = join(parent, record.name);
    match known {
        None => Some(delete(path)),
        Some(siblings) => {
            if !has_name(siblings, record.name) {
                Some(delete(path))
            } else {
                let twin = siblings[name_index(siblings, record.name)];
                if twin.is_dir() != record.is_dir() {
                    Some(delete(path))
                } else if twin.digest == record.digest {
                    None
                } else {
                    Some(copy(path))
                }
            }
        },
    }
}

/// No operation, or one.
pub open spec fn optional(operation: Option<OperationView>) -> Seq<OperationView> {
    match operation {
        Some(operation) => seq![operation],
        None => Seq::empty(),
    }
}

/// The operations for the entries of one directory of the target, the last
/// entry's first.
pub open spec fn entries_plan(
    known: Option<Seq<RecordView>>,
    parent: Seq<char>,
    records: Seq<RecordView>,
) -> Seq<OperationView>
    decreases records.len(),
{
    if records.len() == 0 {
        Seq::empty()
    } else {
        entries_plan(known, parent, records.drop_first()) + optional(
            entry_operation(known, parent, records.first()),
        )
    }
}

/// The expansions of those among `records`, which the reference lists under
/// `parent`, whose paths are reported missing from the target's disk; the
/// last record's first.
pub open spec fn missing_plan(
    reference: Seq<DirectoryView>,
    missing: Seq<Seq<char>>,
    parent: Seq<char>,
    records: Seq<RecordView>,
) -> Seq<OperationView>
    decreases records.len(),
{
    if records.len() == 0 {
        Seq::empty()
    } else {
        missing_plan(reference, missing, parent, records.drop_first()) + (if missing.contains(
            join(parent, records.first().name),
        ) {
            expand(reference, parent, records.first())
        } else {
            Seq::empty()
        })
    }
}

/// The operations that one directory of the target calls for: those for its
/// entries, and then, where the reference has the directory too, the
/// expansions of what the reference lists there and the disk lacks.
pub open spec fn directory_plan(
    reference: Seq<DirectoryView>,
    missing: Seq<Seq<char>>,
    directory: DirectoryView,
) -> Seq<OperationView> {
    if has_dir(reference, directory.path) {
        let known = children_of(reference, directory.path);
        entries_plan(Some(known), directory.path, directory.children) + missing_plan(
            reference,
            missing,
            directory.path,
            known,
        )
    } else {
        entries_plan(None, directory.path, directory.children)
    }
}

/// The whole plan: the operations of each directory of the target, the last
/// directory's first, so that what lies deeper comes earlier.
pub open spec fn plan(
    reference: Seq<DirectoryView>,
    target: Seq<DirectoryView>,
    missing: Seq<Seq<char>>,
) -> Seq<OperationView>
    decreases target.len(),
{
    if target.len() == 0 {
        Seq::empty()
    } else {
        plan(reference, target.drop_first(), missing) + directory_plan(
            reference,
            missing,
            target.first(),
        )
    }
}

/// The paths whose presence on the target's disk the plan asks about: for
/// each directory of the target that the reference has too, the paths of the
/// records that the reference lists there.
pub open spec fn probes(reference: Seq<DirectoryView>, target: Seq<DirectoryView>) -> Seq<
    Seq<char>,
>
    decreases target.len(),
{
    if target.len() == 0 {
        Seq::empty()
    } else {
        let last = target.last();
        probes(reference, target.drop_last()) + (if has_dir(reference, last.path) {
            children_of(reference, last.path).map_values(
                |record: RecordView| join(last.path, record.name),
            )
        } else {
            Seq::empty()
        })
    }
}

/// The line that stands for an operation: the action's word, and the path
/// between backticks.
pub open spec fn line(operation: OperationView) -> Seq<char> {
    (match operation.action {
        Action::Create => "create `"@,
        Action::Copy => "copy `"@,
        Action::Delete => "delete `"@,
    }) + operation.path + "`"@
}

/// The lines that stand for the operations, in order.
pub open spec fn lines_of(ops: Seq<OperationView>) -> Seq<Seq<char>> {
    Seq::new(ops.len(), |i: int| line(ops[i]))
}

/// Different operations stand on different lines.
pub proof fn lemma_line_injective(first: OperationView, second: OperationView)
    requires
        line(first) == line(second),
    ensures
        first == second,
{
    reveal_strlit("create `");
    reveal_strlit("copy `");
    reveal_strlit("delete `");
    reveal_strlit("`");
    let a = line(first);
    let b = line(second);
    let word_a = match first.action {
        Action::Create => "create `"@,
        Action::Copy => "copy `"@,
        Action::Delete => "delete `"@,
    };
    let word_b = match second.action {
        Action::Create => "create `"@,
        Action::Copy => "copy `"@,
        Action::Delete => "delete `"@,
    };
    assert(a[0] == word_a[0] && a[1] == word_a[1]);
    assert(b[0] == word_b[0] && b[1] == word_b[1]);
    assert(first.action == second.action);
    assert(a.len() == word_a.len() + first.path.len() + 1);
    assert(b.len() == word_b.len() + second.path.len() + 1);
    assert forall|i: int| 0 <= i < first.path.len() implies first.path[i] == second.path[i] by {
        assert(a[word_a.len() + i] == first.path[i]);
        assert(b[word_b.len() + i] == second.path[i]);
    }
    assert(first.path =~= second.path);
}

impl Operation {
    /// The operation as one line of output.
    pub fn render(&self) -> (text: String)
        ensures
            text@ == line(self@),
    {
        let mut text = match self.action {
            Action::Create => String::from_str("create `"),
            Action::Copy => String::from_str("copy `"),
            Action::Delete => String::from_str("delete `"),
        };
        text.append(self.path.as_str());
        text.append("`");
        text
    }
}

spec fn known_view(known: Option<&Vec<Record>>) -> Option<Seq<RecordView>> {
    match known {
        Some(records) => Some(records.deep_view()),
        None => None,
    }
}

/// The paths of a list, for looking them up.
fn path_set(paths: &Vec<String>) -> (set: StringHashMap<bool>)
    ensures
        forall|path: Seq<char>| #[trigger] set@.contains_key(path) <==> paths.deep_view().contains(path),
{
    let ghost all = paths.deep_view();
    let mut set: StringHashMap<bool> = StringHashMap::new();
    let mut i: usize = 0;
    while i < paths.len()
        invariant
            i <= paths.len(),
            all == paths.deep_view(),
            forall|path: Seq<char>| #[trigger]
                set@.contains_key(path) <==> all.subrange(0, i as int).contains(path),
        decreases paths.len() - i,
    {
        let ghost before = all.subrange(0, i as int);
        let ghost after = all.subrange(0, i + 1);
        let ghost held = set@;
        set.insert(paths[i].clone(), true);
        assert forall|path: Seq<char>| #[trigger]
            set@.contains_key(path) <==> after.contains(path) by {
            assert(after[i as int] == paths[i as int]@);
            if before.contains(path) {
                let j = choose|j: int| 0 <= j < before.len() && before[j] == path;
                assert(after[j] == path);
                assert(held.contains_key(path));
            }
            if after.contains(path) {
                let j = choose|j: int| 0 <= j < after.len() && after[j] == path;
                if j < i {
                    assert(before[j] == path);
                }
            }
        }
        i = i + 1;
    }
    assert(all.subrange(0, all.len() as int) =~= all);
    set
}

fn decide(known: Option<&Vec<Record>>, parent: &str, record: &Record) -> (operation: Option<
    Operation,
>)
    requires
        known matches Some(siblings) ==> valid_children(siblings.deep_view()),
    ensures
        operation.deep_view() == entry_operation(known_view(known), parent@, record@),
{
    let path = join_path(parent, record.name.as_str());
    let siblings = match known {
        None => {
            return Some(Operation { action: Action::Delete, path });
        },
        Some(siblings) => siblings,
    };
    match find_name(siblings, &record.name) {
        None => Some(Operation { action: Action::Delete, path }),
        Some(k) => {
            proof {
                lemma_name_index(siblings.deep_view(), k as int);
            }
            match &siblings[k].content {
                Content::Directory => match &record.content {
                    Content::Directory => None,
                    Content::File { .. } => Some(Operation { action: Action::Delete, path }),
                },
                Content::File { digest: wanted } => match &record.content {
                    Content::Directory => Some(Operation { action: Action::Delete, path }),
                    Content::File { digest: found } => {
                        if *wanted == *found {
                            None
                        } else {
                            Some(Operation { action: Action::Copy, path })
                        }
                    },
                },
            }
        },
    }
}

fn plan_entries(
    known: Option<&Vec<Record>>,
    parent: &str,
    records: &Vec<Record>,
    out: &mut Vec<Operation>,
)
    requires
        known matches Some(siblings) ==> valid_children(siblings.deep_view()),
    ensures
        final(out).deep_view() == old(out).deep_view() + entries_plan(
            known_view(known),
            parent@,
            records.deep_view(),
        ),
{
    let ghost before = out.deep_view();
    let ghost all = records.deep_view();
    let mut k = records.len();
    assert(all.subrange(k as int, all.len() as int) =~= Seq::<RecordView>::empty());
    assert(out.deep_view() =~= before + Seq::<OperationView>::empty());
    while k > 0
        invariant
            k <= records.len(),
            all == records.deep_view(),
            known matches Some(siblings) ==> valid_children(siblings.deep_view()),
            out.deep_view() == before + entries_plan(
                known_view(known),
                parent@,
                all.subrange(k as int, all.len() as int),
            ),
        decreases k,
    {
        k = k - 1;
        let ghost tail = all.subrange(k as int, all.len() as int);
        let ghost done = out.deep_view();
        proof {
            assert(tail.drop_first() =~= all.subrange(k + 1, all.len() as int));
            assert(tail.first() == records[k as int]@);
        }
        match decide(known, parent, &records[k]) {
            Some(operation) => {
                out.push(operation);
                assert(out.deep_view() =~= done + seq![operation@]);
            },
            None => {
                assert(out.deep_view() =~= done + Seq::<OperationView>::empty());
            },
        }
        assert(out.deep_view() =~= before + entries_plan(known_view(known), parent@, tail));
    }
    assert(all.subrange(0, all.len() as int) =~= all);
}

/// Expands one record of the reference that the target lacks, as [`expand`]
/// says: a file is copied; a directory is created, and what `entries` lists
/// under it follows.
pub fn copy_record(record: &Record, relative_parent: &str, entries: &Tree) -> (operations: Vec<
    Operation,
>)
    ensures
        operations.deep_view() == expand(entries@, relative_parent@, record@),
    decreases longest_path(entries@) - relative_parent@.len(),
{
    let path = join_path(relative_parent, record.name.as_str());
    let mut operations: Vec<Operation> = Vec::new();
    match &record.content {
        Content::File { .. } => {
            operations.push(Operation { action: Action::Copy, path });
            assert(operations.deep_view() =~= seq![copy(path@)]);
        },
        Content::Directory => {
            operations.push(Operation { action: Action::Create, path: path.clone() });
            assert(operations.deep_view() =~= seq![create(path@)]);
            if !record.name.as_str().is_empty() {
                match entries.children(path.as_str()) {
                    None => {},
                    Some(children) => {
                        proof {
                            lemma_longest_path(entries@, dir_index(entries@, path@));
                        }
                        let ghost all = children.deep_view();
                        let mut k: usize = 0;
                        assert(all.subrange(0, 0) =~= Seq::<RecordView>::empty());
                        assert(operations.deep_view() =~= seq![create(path@)] + Seq::<
                            OperationView,
                        >::empty());
                        while k < children.len()
                            invariant
                                k <= children.len(),
                                all == children.deep_view(),
                                relative_parent@.len() < path@.len() <= longest_path(entries@),
                                operations.deep_view() == seq![create(path@)] + expand_all(
                                    entries@,
                                    path@,
                                    all.subrange(0, k as int),
                                ),
                            decreases children.len() - k,
                        {
                            let ghost done = operations.deep_view();
                            let ghost taken = all.subrange(0, k + 1);
                            proof {
                                assert(taken.drop_last() =~= all.subrange(0, k as int));
                                assert(taken.last() == children[k as int]@);
                            }
                            let mut more = copy_record(&children[k], path.as_str(), entries);
                            let ghost added = more.deep_view();
                            operations.append(&mut more);
                            assert(operations.deep_view() =~= done + added);
                            assert(operations.deep_view() =~= seq![create(path@)] + expand_all(
                                entries@,
                                path@,
                                taken,
                            ));
                            k = k + 1;
                        }
                        assert(all.subrange(0, all.len() as int) =~= all);
                    },
                }
            }
        },
    }
    operations
}

fn plan_missing(
    reference: &Tree,
    missing: Ghost<Seq<Seq<char>>>,
    lost: &StringHashMap<bool>,
    parent: &str,
    records: &Vec<Record>,
    out: &mut Vec<Operation>,
)
    requires
        forall|path: Seq<char>| #[trigger] lost@.contains_key(path) <==> missing@.contains(path),
    ensures
        final(out).deep_view() == old(out).deep_view() + missing_plan(
            reference@,
            missing@,
            parent@,
            records.deep_view(),
        ),
{
    let ghost before = out.deep_view();
    let ghost all = records.deep_view();
    let mut k = records.len();
    assert(all.subrange(k as int, all.len() as int) =~= Seq::<RecordView>::empty());
    assert(out.deep_view() =~= before + Seq::<OperationView>::empty());
    while k > 0
        invariant
            k <= records.len(),
            all == records.deep_view(),
            forall|path: Seq<char>| #[trigger] lost@.contains_key(path) <==> missing@.contains(path),
            out.deep_view() == before + missing_plan(
                reference@,
                missing@,
                parent@,
                all.subrange(k as int, all.len() as int),
            ),
        decreases k,
    {
        k = k - 1;
        let ghost tail = all.subrange(k as int, all.len() as int);
        let ghost done = out.deep_view();
        proof {
            assert(tail.drop_first() =~= all.subrange(k + 1, all.len() as int));
            assert(tail.first() == records[k as int]@);
        }
        let path = join_path(parent, records[k].name.as_str());
        if lost.contains_key(path.as_str()) {
            let mut more = copy_record(&records[k], parent, reference);
            let ghost added = more.deep_view();
            out.append(&mut more);
            assert(out.deep_view() =~= done + added);
        } else {
            assert(out.deep_view() =~= done + Seq::<OperationView>::empty());
        }
        assert(out.deep_view() =~= before + missing_plan(
            reference@,
            missing@,
            parent@,
            tail,
        ));
    }
    assert(all.subrange(0, all.len() as int) =~= all);
}

/// Plans the operations that make the target equal to the reference.
/// `missing` holds the paths, among those of [`probe_paths`], that the
/// target's disk does not have.
///
/// The operations are safe to carry out in order: what lies below a path is
/// deleted before the path is; every create and every copy finds its parent
/// directory in the target's tree or made by an earlier create; and, where
/// the disk has what the target's tree lists, a directory is created before
/// anything is created or copied below it.
pub fn reconcile(reference: &Tree, target: &Tree, missing: &Vec<String>) -> (operations: Vec<
    Operation,
>)
    ensures
        operations.deep_view() == plan(reference@, target@, missing.deep_view()),
        deletes_ordered(operations.deep_view()),
        supplied(operations.deep_view(), target@, Seq::empty()),
        on_disk(target@, missing.deep_view()) ==> creates_ordered(operations.deep_view()),
{
    let dirs = target.directories();
    // Every tree is well formed; asking for the directories says so here.
    reference.directories();
    let lost = path_set(missing);
    let ghost all = dirs.deep_view();
    let mut operations: Vec<Operation> = Vec::new();
    let mut i = dirs.len();
    assert(all.subrange(i as int, all.len() as int) =~= Seq::<DirectoryView>::empty());
    assert(operations.deep_view() =~= Seq::<OperationView>::empty());
    while i > 0
        invariant
            i <= dirs.len(),
            all == dirs.deep_view(),
            well_formed(reference@),
            forall|path: Seq<char>| #[trigger]
                lost@.contains_key(path) <==> missing.deep_view().contains(path),
            operations.deep_view() == plan(
                reference@,
                all.subrange(i as int, all.len() as int),
                missing.deep_view(),
            ),
        decreases i,
    {
        i = i - 1;
        let ghost tail = all.subrange(i as int, all.len() as int);
        let ghost done = operations.deep_view();
        proof {
            assert(tail.drop_first() =~= all.subrange(i + 1, all.len() as int));
            assert(tail.first() == dirs[i as int]@);
        }
        let directory = &dirs[i];
        match reference.children(directory.path.as_str()) {
            None => {
                plan_entries(None, directory.path.as_str(), &directory.children, &mut operations);
            },
            Some(known) => {
                proof {
                    let at = dir_index(reference@, directory.path@);
                    assert(valid_children(reference@[at].children));
                }
                plan_entries(
                    Some(known),
                    directory.path.as_str(),
                    &directory.children,
                    &mut operations,
                );
                plan_missing(
                    reference,
                    Ghost(missing.deep_view()),
                    &lost,
                    directory.path.as_str(),
                    known,
                    &mut operations,
                );
            },
        }
        assert(operations.deep_view() =~= done + directory_plan(
            reference@,
            missing.deep_view(),
            dirs[i as int]@,
        ));
    }
    assert(all.subrange(0, all.len() as int) =~= all);
    proof {
        lemma_deletes_come_deepest_first(reference@, target@, missing.deep_view());
        lemma_parents_are_there(reference@, target@, missing.deep_view());
        if on_disk(target@, missing.deep_view()) {
            lemma_creates_come_first(reference@, target@, missing.deep_view());
        }
    }
    operations
}

/// The paths to look for on the target's disk before planning, relative to
/// the target's root: see [`probes`].
pub fn probe_paths(reference: &Tree, target: &Tree) -> (paths: Vec<String>)
    ensures
        paths.deep_view() == probes(reference@, target@),
{
    let dirs = target.directories();
    let ghost all = dirs.deep_view();
    let mut paths: Vec<String> = Vec::new();
    let mut i: usize = 0;
    assert(all.subrange(0, 0) =~= Seq::<DirectoryView>::empty());
    assert(paths.deep_view() =~= Seq::<Seq<char>>::empty());
    while i < dirs.len()
        invariant
            i <= dirs.len(),
            all == dirs.deep_view(),
            paths.deep_view() == probes(reference@, all.subrange(0, i as int)),
        decreases dirs.len() - i,
    {
        let ghost taken = all.subrange(0, i + 1);
        let ghost done = paths.deep_view();
        proof {
            assert(taken.drop_last() =~= all.subrange(0, i as int));
            assert(taken.last() == dirs[i as int]@);
        }
        let directory = &dirs[i];
        match reference.children(directory.path.as_str()) {
            None => {
                assert(paths.deep_view() =~= done + Seq::<Seq<char>>::empty());
            },
            Some(known) => {
                let ghost wanted = known.deep_view().map_values(
                    |record: RecordView| join(directory.path@, record.name),
                );
                let mut k: usize = 0;
                assert(paths.deep_view() =~= done + wanted.subrange(0, 0));
                while k < known.len()
                    invariant
                        k <= known.len(),
                        wanted == known.deep_view().map_values(
                            |record: RecordView| join(directory.path@, record.name),
                        ),
                        paths.deep_view() == done + wanted.subrange(0, k as int),
                    decreases known.len() - k,
                {
                    let path = join_path(directory.path.as_str(), known[k].name.as_str());
                    let ghost so_far = paths.deep_view();
                    proof {
                        assert(known.deep_view()[k as int] == known[k as int]@);
                        assert(wanted[k as int] == path@);
                    }
                    paths.push(path);
                    assert(paths.deep_view() =~= so_far.push(wanted[k as int]));
                    assert(so_far.push(wanted[k as int]) =~= done + wanted.subrange(0, k + 1));
                    k = k + 1;
                }
                assert(wanted.subrange(0, known.len() as int) =~= wanted);
            },
        }
        i = i + 1;
    }
    assert(all.subrange(0, all.len() as int) =~= all);
    paths
}

/// Plans as [`reconcile`] does, and gives the plan as lines of output.
pub fn sync_directory(reference: &Tree, target: &Tree, missing: &Vec<String>) -> (lines: Vec<
    String,
>)
    ensures
        lines.deep_view() == lines_of(plan(reference@, target@, missing.deep_view())),
{
    let operations = reconcile(reference, target, missing);
    let mut lines: Vec<String> = Vec::new();
    let mut i: usize = 0;
    while i < operations.len()
        invariant
            i <= operations.len(),
            lines.len() == i,
            forall|j: int| 0 <= j < i ==> lines[j]@ == line(operations[j]@),
        decreases operations.len() - i,
    {
        lines.push(operations[i].render());
        i = i + 1;
    }
    assert(lines.deep_view() =~= lines_of(operations.deep_view()));
    lines
}

} // verus!
