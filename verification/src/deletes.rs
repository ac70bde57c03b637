//! Deletes come deepest first: what lies below a path is deleted before the
//! path itself, so that a directory is empty by the time it is removed.

use crate::path::below;
use crate::path::join;
use crate::path::lemma_below_within;
use crate::path::lemma_parent_within;
use crate::path::lemma_split_join;
use crate::path::valid_name;
use crate::plan::directory_plan;
use crate::plan::entries_plan;
use crate::plan::missing_plan;
use crate::plan::plan;
use crate::plan::Action;
use crate::plan::OperationView;
use crate::sources::lemma_entries_from;
use crate::sources::lemma_missing_region;
use crate::sources::names_entry;
use crate::tree::children_of;
use crate::tree::has_dir;
use crate::tree::listed_before;
use crate::tree::lists;
use crate::tree::valid_children;
use crate::tree::valid_record;
use crate::tree::well_formed;
use crate::tree::DirectoryView;
use vstd::prelude::*;

verus! {

/// No delete is followed by the delete of something that lies below its path.
pub open spec fn deletes_ordered(ops: Seq<OperationView>) -> bool {
    forall|a: int, b: int|
        0 <= a < b < ops.len() && (#[trigger] ops[a]).action == Action::Delete && (
        #[trigger] ops[b]).action == Action::Delete ==> !below(ops[b].path, ops[a].path)
}

/// `path` is the path of an entry of a directory that stands at index
/// `from` of the target or behind it.
pub open spec fn entry_from(target: Seq<DirectoryView>, from: int, path: Seq<char>) -> bool {
    exists|j: int|
        from <= j < target.len() && #[trigger] names_entry(target[j].path, target[j].children, path)
}

/// In a well-formed tree a directory stands behind every directory that it
/// lies below.
pub proof fn lemma_tree_order(tree: Seq<DirectoryView>, i: int, j: int)
    requires
        well_formed(tree),
        0 <= i < tree.len(),
        0 <= j < tree.len(),
        below(tree[j].path, tree[i].path),
    ensures
        i < j,
    decreases j,
{
    assert(j > 0);
    assert(listed_before(tree, j));
    let above = choose|above: int| 0 <= above < j && #[trigger] lists(tree, above, tree[j].path);
    let k = choose|k: int|
        0 <= k < tree[above].children.len() && (#[trigger] tree[above].children[k]).is_dir()
            && join(tree[above].path, tree[above].children[k].name) == tree[j].path;
    assert(valid_children(tree[above].children));
    assert(valid_record(tree[above].children[k]));
    lemma_parent_within(tree[above].path, tree[above].children[k].name, tree[i].path);
    if tree[above].path == tree[i].path {
        if above < i {
            assert(tree[above].path != tree[i].path);
        } else if i < above {
            assert(tree[i].path != tree[above].path);
        }
    } else {
        lemma_tree_order(tree, i, above);
    }
}

/// No entry of a directory lies below another entry of the same directory.
pub proof fn lemma_entries_apart(parent: Seq<char>, first: Seq<char>, second: Seq<char>)
    requires
        valid_name(first),
        valid_name(second),
    ensures
        !below(join(parent, second), join(parent, first)),
{
    if below(join(parent, second), join(parent, first)) {
        lemma_parent_within(parent, second, join(parent, first));
        lemma_split_join(parent, first);
    }
}

/// The deletes among the operations of one directory of the target name
/// entries of that directory.
pub proof fn lemma_block_deletes(
    reference: Seq<DirectoryView>,
    missing: Seq<Seq<char>>,
    directory: DirectoryView,
)
    ensures
        forall|a: int|
            0 <= a < directory_plan(reference, missing, directory).len() && (
            #[trigger] directory_plan(reference, missing, directory)[a]).action
                == Action::Delete ==> names_entry(
                directory.path,
                directory.children,
                directory_plan(reference, missing, directory)[a].path,
            ),
{
    let ops = directory_plan(reference, missing, directory);
    if has_dir(reference, directory.path) {
        let known = children_of(reference, directory.path);
        let entries = entries_plan(Some(known), directory.path, directory.children);
        let expansions = missing_plan(reference, missing, directory.path, known);
        lemma_entries_from(Some(known), directory.path, directory.children);
        lemma_missing_region(reference, missing, directory.path, known);
        assert forall|a: int|
            0 <= a < ops.len() && (#[trigger] ops[a]).action == Action::Delete implies names_entry(
            directory.path,
            directory.children,
            ops[a].path,
        ) by {
            if a < entries.len() {
                assert(ops[a] == entries[a]);
            } else {
                assert(ops[a] == expansions[a - entries.len()]);
            }
        }
    } else {
        lemma_entries_from(None, directory.path, directory.children);
    }
}

/// The deletes in the plan for the directories from index `from` on name
/// entries of those directories.
pub proof fn lemma_plan_deletes(
    reference: Seq<DirectoryView>,
    target: Seq<DirectoryView>,
    missing: Seq<Seq<char>>,
    from: int,
)
    requires
        0 <= from <= target.len(),
    ensures
        forall|a: int|
            0 <= a < plan(reference, target.subrange(from, target.len() as int), missing).len()
                && (#[trigger] plan(
                reference,
                target.subrange(from, target.len() as int),
                missing,
            )[a]).action == Action::Delete ==> entry_from(
                target,
                from,
                plan(reference, target.subrange(from, target.len() as int), missing)[a].path,
            ),
    decreases target.len() - from,
{
    let tail = target.subrange(from, target.len() as int);
    let ops = plan(reference, tail, missing);
    if from < target.len() {
        assert(tail.drop_first() =~= target.subrange(from + 1, target.len() as int));
        assert(tail.first() == target[from]);
        let rest = plan(reference, tail.drop_first(), missing);
        let block = directory_plan(reference, missing, target[from]);
        lemma_plan_deletes(reference, target, missing, from + 1);
        lemma_block_deletes(reference, missing, target[from]);
        assert forall|a: int|
            0 <= a < ops.len() && (#[trigger] ops[a]).action == Action::Delete implies entry_from(
            target,
            from,
            ops[a].path,
        ) by {
            if a < rest.len() {
                assert(ops[a] == rest[a]);
                assert(entry_from(target, from + 1, rest[a].path));
                let j = choose|j: int|
                    from + 1 <= j < target.len() && #[trigger] names_entry(
                        target[j].path,
                        target[j].children,
                        rest[a].path,
                    );
                assert(names_entry(target[j].path, target[j].children, ops[a].path));
            } else {
                assert(ops[a] == block[a - rest.len()]);
                assert(names_entry(target[from].path, target[from].children, ops[a].path));
            }
        }
    }
}

proof fn lemma_deletes_ordered_from(
    reference: Seq<DirectoryView>,
    target: Seq<DirectoryView>,
    missing: Seq<Seq<char>>,
    from: int,
)
    requires
        well_formed(target),
        0 <= from <= target.len(),
    ensures
        deletes_ordered(plan(reference, target.subrange(from, target.len() as int), missing)),
    decreases target.len() - from,
{
    let tail = target.subrange(from, target.len() as int);
    let ops = plan(reference, tail, missing);
    if from < target.len() {
        assert(tail.drop_first() =~= target.subrange(from + 1, target.len() as int));
        assert(tail.first() == target[from]);
        let directory = target[from];
        let rest = plan(reference, tail.drop_first(), missing);
        let block = directory_plan(reference, missing, directory);
        lemma_deletes_ordered_from(reference, target, missing, from + 1);
        lemma_plan_deletes(reference, target, missing, from + 1);
        lemma_block_deletes(reference, missing, directory);
        assert(valid_children(directory.children));
        assert forall|a: int, b: int|
            0 <= a < b < ops.len() && (#[trigger] ops[a]).action == Action::Delete && (
            #[trigger] ops[b]).action == Action::Delete implies !below(ops[b].path, ops[a].path) by {
            if b < rest.len() {
                assert(ops[a] == rest[a] && ops[b] == rest[b]);
            } else {
                assert(ops[b] == block[b - rest.len()]);
                assert(names_entry(directory.path, directory.children, ops[b].path));
                let l = choose|l: int|
                    0 <= l < directory.children.len() && ops[b].path == join(
                        directory.path,
                        (#[trigger] directory.children[l]).name,
                    );
                assert(valid_record(directory.children[l]));
                if a < rest.len() {
                    assert(ops[a] == rest[a]);
                    assert(entry_from(target, from + 1, ops[a].path));
                    let j = choose|j: int|
                        from + 1 <= j < target.len() && #[trigger] names_entry(
                            target[j].path,
                            target[j].children,
                            ops[a].path,
                        );
                    let k = choose|k: int|
                        0 <= k < target[j].children.len() && ops[a].path == join(
                            target[j].path,
                            (#[trigger] target[j].children[k]).name,
                        );
                    assert(valid_children(target[j].children));
                    assert(valid_record(target[j].children[k]));
                    if below(ops[b].path, ops[a].path) {
                        lemma_parent_within(
                            directory.path,
                            directory.children[l].name,
                            ops[a].path,
                        );
                        lemma_split_join(target[j].path, target[j].children[k].name);
                        if directory.path != ops[a].path {
                            lemma_below_within(directory.path, ops[a].path, target[j].path);
                        }
                        lemma_tree_order(target, j, from);
                    }
                } else {
                    assert(ops[a] == block[a - rest.len()]);
                    assert(names_entry(directory.path, directory.children, ops[a].path));
                    let h = choose|h: int|
                        0 <= h < directory.children.len() && ops[a].path == join(
                            directory.path,
                            (#[trigger] directory.children[h]).name,
                        );
                    assert(valid_record(directory.children[h]));
                    lemma_entries_apart(
                        directory.path,
                        directory.children[h].name,
                        directory.children[l].name,
                    );
                }
            }
        }
    }
}

/// In the plan every delete of a path comes after the deletes of all that
/// lies below the path.
pub proof fn lemma_deletes_come_deepest_first(
    reference: Seq<DirectoryView>,
    target: Seq<DirectoryView>,
    missing: Seq<Seq<char>>,
)
    requires
        well_formed(target),
    ensures
        deletes_ordered(plan(reference, target, missing)),
{
    lemma_deletes_ordered_from(reference, target, missing, 0);
    assert(target.subrange(0, target.len() as int) =~= target);
}

} // verus!
