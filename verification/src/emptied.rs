//! A directory of the target that the plan deletes is emptied first: the
//! plan deletes every entry below it.

use crate::path::below;
use crate::path::join;
use crate::path::lemma_join_injective;
use crate::path::lemma_parent_within;
use crate::path::lemma_split_join;
use crate::path::within;
use crate::plan::delete;
use crate::plan::directory_plan;
use crate::plan::entries_plan;
use crate::plan::entry_operation;
use crate::plan::missing_plan;
use crate::plan::optional;
use crate::plan::plan;
use crate::plan::Action;
use crate::plan::OperationView;
use crate::sources::lemma_entries_hold;
use crate::sources::lemma_missing_region;
use crate::sources::lemma_plan_holds;
use crate::tree::children_of;
use crate::tree::dir_index;
use crate::tree::has_dir;
use crate::tree::lemma_dir_index;
use crate::tree::lemma_name_index;
use crate::tree::listed_before;
use crate::tree::lists;
use crate::tree::valid_children;
use crate::tree::valid_record;
use crate::tree::well_formed;
use crate::tree::DirectoryView;
use crate::tree::RecordView;
use vstd::prelude::*;

verus! {

/// The records that the reference has for the directory at `path`, if it
/// has that directory.
pub open spec fn known_of(reference: Seq<DirectoryView>, path: Seq<char>) -> Option<
    Seq<RecordView>,
> {
    if has_dir(reference, path) {
        Some(children_of(reference, path))
    } else {
        None
    }
}

/// One of `records`, the entries of `parent`, calls for the operation.
pub open spec fn calls_for(
    known: Option<Seq<RecordView>>,
    parent: Seq<char>,
    records: Seq<RecordView>,
    op: OperationView,
) -> bool {
    exists|k: int|
        0 <= k < records.len() && entry_operation(known, parent, #[trigger] records[k]) == Some(op)
}

/// An entry of a directory that stands at index `from` of the target or
/// behind it calls for the operation.
pub open spec fn called_from(
    reference: Seq<DirectoryView>,
    target: Seq<DirectoryView>,
    from: int,
    op: OperationView,
) -> bool {
    exists|i: int|
        from <= i < target.len() && calls_for(
            known_of(reference, (#[trigger] target[i]).path),
            target[i].path,
            target[i].children,
            op,
        )
}

/// Each operation for the entries of a directory is called for by one of
/// the entries.
pub proof fn lemma_entries_source(
    known: Option<Seq<RecordView>>,
    parent: Seq<char>,
    records: Seq<RecordView>,
)
    ensures
        forall|a: int|
            0 <= a < entries_plan(known, parent, records).len() ==> calls_for(
                known,
                parent,
                records,
                #[trigger] entries_plan(known, parent, records)[a],
            ),
    decreases records.len(),
{
    let ops = entries_plan(known, parent, records);
    if records.len() > 0 {
        let after = records.drop_first();
        let rest = entries_plan(known, parent, after);
        let first = optional(entry_operation(known, parent, records.first()));
        lemma_entries_source(known, parent, after);
        assert forall|a: int| 0 <= a < ops.len() implies calls_for(
            known,
            parent,
            records,
            #[trigger] ops[a],
        ) by {
            if a < rest.len() {
                assert(ops[a] == rest[a]);
                assert(calls_for(known, parent, after, rest[a]));
                let k = choose|k: int|
                    0 <= k < after.len() && entry_operation(known, parent, #[trigger] after[k])
                        == Some(rest[a]);
                assert(records[k + 1] == after[k]);
            } else {
                assert(ops[a] == first[a - rest.len()]);
                assert(records[0] == records.first());
            }
        }
    }
}

/// Each delete in the plan for the directories from index `from` on is
/// called for by an entry of one of them.
pub proof fn lemma_plan_delete_source(
    reference: Seq<DirectoryView>,
    target: Seq<DirectoryView>,
    missing: Seq<Seq<char>>,
    from: int,
)
    requires
        0 <= from <= target.len(),
    ensures
        forall|a: int|
            0 <= a < plan(reference, target.subrange(from, target.len() as int), missing).len()
                && (#[trigger] plan(
                reference,
                target.subrange(from, target.len() as int),
                missing,
            )[a]).action == Action::Delete ==> called_from(
                reference,
                target,
                from,
                plan(reference, target.subrange(from, target.len() as int), missing)[a],
            ),
    decreases target.len() - from,
{
    let tail = target.subrange(from, target.len() as int);
    let ops = plan(reference, tail, missing);
    if from < target.len() {
        let directory = target[from];
        assert(tail.drop_first() =~= target.subrange(from + 1, target.len() as int));
        assert(tail.first() == directory);
        let rest = plan(reference, tail.drop_first(), missing);
        let block = directory_plan(reference, missing, directory);
        let known = known_of(reference, directory.path);
        let entries = entries_plan(known, directory.path, directory.children);
        lemma_plan_delete_source(reference, target, missing, from + 1);
        lemma_entries_source(known, directory.path, directory.children);
        if has_dir(reference, directory.path) {
            lemma_missing_region(
                reference,
                missing,
                directory.path,
                children_of(reference, directory.path),
            );
        }
        assert forall|a: int|
            0 <= a < ops.len() && (#[trigger] ops[a]).action == Action::Delete implies called_from(
            reference,
            target,
            from,
            ops[a],
        ) by {
            if a < rest.len() {
                assert(ops[a] == rest[a]);
                assert(called_from(reference, target, from + 1, rest[a]));
                let i = choose|i: int|
                    from + 1 <= i < target.len() && calls_for(
                        known_of(reference, (#[trigger] target[i]).path),
                        target[i].path,
                        target[i].children,
                        rest[a],
                    );
                assert(calls_for(
                    known_of(reference, target[i].path),
                    target[i].path,
                    target[i].children,
                    ops[a],
                ));
            } else {
                let c = a - rest.len();
                assert(ops[a] == block[c]);
                if c < entries.len() {
                    assert(block[c] == entries[c]);
                } else {
                    let expansions = missing_plan(
                        reference,
                        missing,
                        directory.path,
                        children_of(reference, directory.path),
                    );
                    assert(block[c] == expansions[c - entries.len()]);
                }
                assert(calls_for(known, target[from].path, target[from].children, ops[a]));
            }
        }
    }
}

/// A well-formed tree that has a directory has every directory that the
/// directory lies below.
pub proof fn lemma_ancestors_present(tree: Seq<DirectoryView>, i: int, above: Seq<char>)
    requires
        well_formed(tree),
        0 <= i < tree.len(),
        below(tree[i].path, above),
    ensures
        has_dir(tree, above),
    decreases i,
{
    assert(i > 0);
    assert(listed_before(tree, i));
    let holder = choose|holder: int| 0 <= holder < i && #[trigger] lists(tree, holder, tree[i].path);
    let k = choose|k: int|
        0 <= k < tree[holder].children.len() && (#[trigger] tree[holder].children[k]).is_dir()
            && join(tree[holder].path, tree[holder].children[k].name) == tree[i].path;
    assert(valid_children(tree[holder].children));
    assert(valid_record(tree[holder].children[k]));
    lemma_parent_within(tree[holder].path, tree[holder].children[k].name, above);
    if tree[holder].path != above {
        lemma_ancestors_present(tree, holder, above);
    }
}

/// The reference does not have a directory of the target that the plan
/// deletes.
pub proof fn lemma_deleted_directory_unknown(
    reference: Seq<DirectoryView>,
    target: Seq<DirectoryView>,
    missing: Seq<Seq<char>>,
    j: int,
)
    requires
        well_formed(reference),
        well_formed(target),
        0 < j < target.len(),
        plan(reference, target, missing).contains(delete(target[j].path)),
    ensures
        !has_dir(reference, target[j].path),
{
    let ops = plan(reference, target, missing);
    let path = target[j].path;
    let a = choose|a: int| 0 <= a < ops.len() && ops[a] == delete(path);
    lemma_plan_delete_source(reference, target, missing, 0);
    assert(target.subrange(0, target.len() as int) =~= target);
    assert(called_from(reference, target, 0, ops[a]));
    let i = choose|i: int|
        0 <= i < target.len() && calls_for(
            known_of(reference, (#[trigger] target[i]).path),
            target[i].path,
            target[i].children,
            ops[a],
        );
    let k = choose|k: int|
        0 <= k < target[i].children.len() && entry_operation(
            known_of(reference, target[i].path),
            target[i].path,
            #[trigger] target[i].children[k],
        ) == Some(ops[a]);
    let record = target[i].children[k];
    assert(valid_children(target[i].children));
    assert(valid_record(record));
    assert(join(target[i].path, record.name) == path);
    // The target lists the deleted directory as that very record.
    assert(listed_before(target, j));
    let holder = choose|holder: int| 0 <= holder < j && #[trigger] lists(target, holder, path);
    let h = choose|h: int|
        0 <= h < target[holder].children.len() && (#[trigger] target[holder].children[h]).is_dir()
            && join(target[holder].path, target[holder].children[h].name) == path;
    assert(valid_children(target[holder].children));
    assert(valid_record(target[holder].children[h]));
    lemma_join_injective(
        target[holder].path,
        target[holder].children[h].name,
        target[i].path,
        record.name,
    );
    lemma_dir_index(target, holder);
    lemma_dir_index(target, i);
    lemma_name_index(target[i].children, h);
    lemma_name_index(target[i].children, k);
    assert(record.is_dir());
    if has_dir(reference, path) {
        let r = dir_index(reference, path);
        lemma_split_join(target[i].path, record.name);
        assert(r > 0);
        assert(listed_before(reference, r));
        let above = choose|above: int| 0 <= above < r && #[trigger] lists(reference, above, path);
        let l = choose|l: int|
            0 <= l < reference[above].children.len() && (
            #[trigger] reference[above].children[l]).is_dir() && join(
                reference[above].path,
                reference[above].children[l].name,
            ) == path;
        assert(valid_children(reference[above].children));
        assert(valid_record(reference[above].children[l]));
        lemma_join_injective(
            reference[above].path,
            reference[above].children[l].name,
            target[i].path,
            record.name,
        );
        lemma_dir_index(reference, above);
        lemma_name_index(reference[above].children, l);
    }
}

/// Where the plan deletes a directory of the target, it deletes every
/// entry that the target's tree has below it, at any depth. `j` is the index
/// of the deleted directory in the target, `i` that of a directory within
/// it, `k` that of an entry of the latter.
pub proof fn lemma_deleted_directories_are_emptied(
    reference: Seq<DirectoryView>,
    target: Seq<DirectoryView>,
    missing: Seq<Seq<char>>,
    j: int,
    i: int,
    k: int,
)
    requires
        well_formed(reference),
        well_formed(target),
        0 < j < target.len(),
        plan(reference, target, missing).contains(delete(target[j].path)),
        0 <= i < target.len(),
        within(target[i].path, target[j].path),
        0 <= k < target[i].children.len(),
    ensures
        plan(reference, target, missing).contains(
            delete(join(target[i].path, target[i].children[k].name)),
        ),
{
    let directory = target[i];
    lemma_deleted_directory_unknown(reference, target, missing, j);
    if has_dir(reference, directory.path) {
        lemma_ancestors_present(
            reference,
            dir_index(reference, directory.path),
            target[j].path,
        );
    }
    lemma_entries_hold(None, directory.path, directory.children, k);
    lemma_plan_holds(
        reference,
        target,
        missing,
        i,
        delete(join(directory.path, directory.children[k].name)),
    );
}

} // verus!
