//! A tree that is reconciled with itself needs no operation.

use crate::path::join;
use crate::plan::entries_plan;
use crate::plan::missing_plan;
use crate::plan::plan;
use crate::plan::OperationView;
use crate::tree::lemma_dir_index;
use crate::tree::lemma_name_index;
use crate::tree::valid_children;
use crate::tree::well_formed;
use crate::tree::DirectoryView;
use crate::tree::RecordView;
use vstd::prelude::*;

verus! {

/// Held against themselves, the records of a directory call for nothing.
pub proof fn lemma_entries_quiet(known: Seq<RecordView>, parent: Seq<char>, from: int)
    requires
        valid_children(known),
        0 <= from <= known.len(),
    ensures
        entries_plan(Some(known), parent, known.subrange(from, known.len() as int)) == Seq::<
            OperationView,
        >::empty(),
    decreases known.len() - from,
{
    if from < known.len() {
        let tail = known.subrange(from, known.len() as int);
        assert(tail.drop_first() =~= known.subrange(from + 1, known.len() as int));
        assert(tail.first() == known[from]);
        lemma_entries_quiet(known, parent, from + 1);
        lemma_name_index(known, from);
    }
}

/// Where the disk lacks none of the records, nothing is expanded.
pub proof fn lemma_missing_quiet(
    reference: Seq<DirectoryView>,
    missing: Seq<Seq<char>>,
    parent: Seq<char>,
    records: Seq<RecordView>,
)
    requires
        forall|k: int|
            0 <= k < records.len() ==> !missing.contains(join(parent, (#[trigger] records[k]).name)),
    ensures
        missing_plan(reference, missing, parent, records) == Seq::<OperationView>::empty(),
    decreases records.len(),
{
    if records.len() > 0 {
        let rest = records.drop_first();
        assert forall|k: int| 0 <= k < rest.len() implies !missing.contains(
            join(parent, (#[trigger] rest[k]).name),
        ) by {
            assert(rest[k] == records[k + 1]);
        }
        lemma_missing_quiet(reference, missing, parent, rest);
        assert(records.first() == records[0]);
    }
}

proof fn lemma_plan_quiet(tree: Seq<DirectoryView>, missing: Seq<Seq<char>>, from: int)
    requires
        well_formed(tree),
        forall|i: int, k: int|
            0 <= i < tree.len() && 0 <= k < tree[i].children.len() ==> !missing.contains(
                join(tree[i].path, (#[trigger] tree[i].children[k]).name),
            ),
        0 <= from <= tree.len(),
    ensures
        plan(tree, tree.subrange(from, tree.len() as int), missing) == Seq::<OperationView>::empty(),
    decreases tree.len() - from,
{
    if from < tree.len() {
        let tail = tree.subrange(from, tree.len() as int);
        let directory = tree[from];
        assert(tail.drop_first() =~= tree.subrange(from + 1, tree.len() as int));
        assert(tail.first() == directory);
        lemma_plan_quiet(tree, missing, from + 1);
        lemma_dir_index(tree, from);
        lemma_entries_quiet(directory.children, directory.path, 0);
        assert(directory.children.subrange(0, directory.children.len() as int)
            =~= directory.children);
        lemma_missing_quiet(tree, missing, directory.path, directory.children);
    }
}

/// The plan for a target whose tree is the reference's own is empty, where
/// the disk has every entry of that tree: a directory reconciled with the
/// snapshot just taken of it needs nothing.
pub proof fn lemma_same_tree_needs_nothing(tree: Seq<DirectoryView>, missing: Seq<Seq<char>>)
    requires
        well_formed(tree),
        forall|i: int, k: int|
            0 <= i < tree.len() && 0 <= k < tree[i].children.len() ==> !missing.contains(
                join(tree[i].path, (#[trigger] tree[i].children[k]).name),
            ),
    ensures
        plan(tree, tree, missing) == Seq::<OperationView>::empty(),
{
    lemma_plan_quiet(tree, missing, 0);
    assert(tree.subrange(0, tree.len() as int) =~= tree);
}

} // verus!
