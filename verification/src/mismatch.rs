//! An entry that is a file on one side and a directory on the other is
//! deleted once, and nothing else in the plan names it.

use crate::path::join;
use crate::path::lemma_join_injective;
use crate::path::within;
use crate::plan::delete;
use crate::plan::directory_plan;
use crate::plan::entries_plan;
use crate::plan::entry_operation;
use crate::plan::expand;
use crate::plan::missing_plan;
use crate::plan::optional;
use crate::plan::plan;
use crate::plan::OperationView;
use crate::sources::all_within;
use crate::sources::lemma_contains_add;
use crate::sources::lemma_entries_hold;
use crate::sources::lemma_expand_region;
use crate::sources::lemma_occurrences_add;
use crate::sources::lemma_occurrences_none;
use crate::sources::lemma_occurrences_optional;
use crate::sources::lemma_plan_holds;
use crate::sources::occurrences;
use crate::tree::children_of;
use crate::tree::has_dir;
use crate::tree::has_name;
use crate::tree::name_index;
use crate::tree::valid_children;
use crate::tree::valid_record;
use crate::tree::well_formed;
use crate::tree::DirectoryView;
use crate::tree::RecordView;
use vstd::prelude::*;

verus! {

/// Among the operations for the entries of a directory, the path of one
/// entry is named by the operation for that entry, if it calls for one, and
/// by no other.
pub proof fn lemma_entries_count(
    known: Option<Seq<RecordView>>,
    parent: Seq<char>,
    records: Seq<RecordView>,
    from: int,
    k: int,
)
    requires
        valid_children(records),
        0 <= from <= records.len(),
        0 <= k < records.len(),
    ensures
        occurrences(
            entries_plan(known, parent, records.subrange(from, records.len() as int)),
            join(parent, records[k].name),
        ) == (if from <= k && entry_operation(known, parent, records[k]) is Some {
            1nat
        } else {
            0nat
        }),
    decreases records.len() - from,
{
    let path = join(parent, records[k].name);
    if from < records.len() {
        let tail = records.subrange(from, records.len() as int);
        assert(tail.drop_first() =~= records.subrange(from + 1, records.len() as int));
        assert(tail.first() == records[from]);
        let rest = entries_plan(known, parent, tail.drop_first());
        let first = optional(entry_operation(known, parent, records[from]));
        lemma_entries_count(known, parent, records, from + 1, k);
        lemma_occurrences_add(rest, first, path);
        assert(valid_record(records[from]) && valid_record(records[k]));
        if from != k {
            if join(parent, records[from].name) == path {
                lemma_join_injective(parent, records[from].name, parent, records[k].name);
                if from < k {
                    assert(records[from].name != records[k].name);
                } else {
                    assert(records[k].name != records[from].name);
                }
            }
        }
        lemma_occurrences_optional(entry_operation(known, parent, records[from]), path);
    }
}

/// The entries of a directory whose paths all differ from `path` call for
/// no operation that names it.
pub proof fn lemma_entries_elsewhere(
    known: Option<Seq<RecordView>>,
    parent: Seq<char>,
    records: Seq<RecordView>,
    path: Seq<char>,
)
    requires
        forall|k: int| 0 <= k < records.len() ==> join(parent, (#[trigger] records[k]).name) != path,
    ensures
        occurrences(entries_plan(known, parent, records), path) == 0,
    decreases records.len(),
{
    if records.len() > 0 {
        let rest = records.drop_first();
        assert forall|k: int| 0 <= k < rest.len() implies join(parent, (#[trigger] rest[k]).name)
            != path by {
            assert(rest[k] == records[k + 1]);
        }
        lemma_entries_elsewhere(known, parent, rest, path);
        let first = optional(entry_operation(known, parent, records.first()));
        lemma_occurrences_add(entries_plan(known, parent, rest), first, path);
        assert(records.first() == records[0]);
        lemma_occurrences_optional(entry_operation(known, parent, records[0]), path);
    }
}

/// No expansion names a path that neither is reported missing nor lies
/// below a path that is.
pub proof fn lemma_missing_clear(
    reference: Seq<DirectoryView>,
    missing: Seq<Seq<char>>,
    parent: Seq<char>,
    records: Seq<RecordView>,
    path: Seq<char>,
)
    requires
        forall|m: int| 0 <= m < missing.len() ==> !within(path, #[trigger] missing[m]),
    ensures
        occurrences(missing_plan(reference, missing, parent, records), path) == 0,
    decreases records.len(),
{
    if records.len() > 0 {
        let rest = records.drop_first();
        let root = join(parent, records.first().name);
        lemma_missing_clear(reference, missing, parent, rest, path);
        let first = if missing.contains(root) {
            expand(reference, parent, records.first())
        } else {
            Seq::<OperationView>::empty()
        };
        lemma_occurrences_add(missing_plan(reference, missing, parent, rest), first, path);
        if missing.contains(root) {
            lemma_expand_region(reference, parent, records.first());
            let m = choose|m: int| 0 <= m < missing.len() && missing[m] == root;
            assert(!within(path, missing[m]));
            assert(all_within(first, root));
        }
        lemma_occurrences_none(first, path);
    }
}

proof fn lemma_plan_count(
    reference: Seq<DirectoryView>,
    target: Seq<DirectoryView>,
    missing: Seq<Seq<char>>,
    i: int,
    k: int,
    from: int,
)
    requires
        well_formed(target),
        0 <= i < target.len(),
        0 <= k < target[i].children.len(),
        0 <= from <= target.len(),
        forall|m: int|
            0 <= m < missing.len() ==> !within(
                join(target[i].path, target[i].children[k].name),
                #[trigger] missing[m],
            ),
        entry_operation(
            if has_dir(reference, target[i].path) {
                Some(children_of(reference, target[i].path))
            } else {
                None
            },
            target[i].path,
            target[i].children[k],
        ) is Some,
    ensures
        occurrences(
            plan(reference, target.subrange(from, target.len() as int), missing),
            join(target[i].path, target[i].children[k].name),
        ) == (if from <= i {
            1nat
        } else {
            0nat
        }),
    decreases target.len() - from,
{
    let path = join(target[i].path, target[i].children[k].name);
    if from < target.len() {
        let tail = target.subrange(from, target.len() as int);
        let directory = target[from];
        assert(tail.drop_first() =~= target.subrange(from + 1, target.len() as int));
        assert(tail.first() == directory);
        lemma_plan_count(reference, target, missing, i, k, from + 1);
        let rest = plan(reference, tail.drop_first(), missing);
        let block = directory_plan(reference, missing, directory);
        lemma_occurrences_add(rest, block, path);
        let known = if has_dir(reference, directory.path) {
            Some(children_of(reference, directory.path))
        } else {
            None
        };
        let entries = entries_plan(known, directory.path, directory.children);
        assert(valid_children(target[i].children));
        assert(valid_children(directory.children));
        assert(valid_record(target[i].children[k]));
        if from == i {
            lemma_entries_count(known, directory.path, directory.children, 0, k);
            assert(directory.children.subrange(0, directory.children.len() as int)
                =~= directory.children);
        } else {
            assert forall|l: int| 0 <= l < directory.children.len() implies join(
                directory.path,
                (#[trigger] directory.children[l]).name,
            ) != path by {
                assert(valid_record(directory.children[l]));
                if join(directory.path, directory.children[l].name) == path {
                    lemma_join_injective(
                        directory.path,
                        directory.children[l].name,
                        target[i].path,
                        target[i].children[k].name,
                    );
                    if from < i {
                        assert(target[from].path != target[i].path);
                    } else {
                        assert(target[i].path != target[from].path);
                    }
                }
            }
            lemma_entries_elsewhere(known, directory.path, directory.children, path);
        }
        if has_dir(reference, directory.path) {
            let expansions = missing_plan(
                reference,
                missing,
                directory.path,
                children_of(reference, directory.path),
            );
            lemma_missing_clear(
                reference,
                missing,
                directory.path,
                children_of(reference, directory.path),
                path,
            );
            lemma_occurrences_add(entries, expansions, path);
        }
    }
}

/// Where the reference and the target both have a directory, and an entry
/// of it is a file in the one and a directory in the other, the plan deletes
/// that entry, and no other operation of the plan names its path: one
/// delete, and neither a copy nor a create. The disk is taken to have the
/// entry: neither its path nor a directory above it is reported missing.
pub proof fn lemma_type_mismatch_one_delete(
    reference: Seq<DirectoryView>,
    target: Seq<DirectoryView>,
    missing: Seq<Seq<char>>,
    i: int,
    k: int,
)
    requires
        well_formed(target),
        0 <= i < target.len(),
        0 <= k < target[i].children.len(),
        has_dir(reference, target[i].path),
        has_name(children_of(reference, target[i].path), target[i].children[k].name),
        children_of(reference, target[i].path)[name_index(
            children_of(reference, target[i].path),
            target[i].children[k].name,
        )].is_dir() != target[i].children[k].is_dir(),
        forall|m: int|
            0 <= m < missing.len() ==> !within(
                join(target[i].path, target[i].children[k].name),
                #[trigger] missing[m],
            ),
    ensures
        plan(reference, target, missing).contains(
            delete(join(target[i].path, target[i].children[k].name)),
        ),
        occurrences(
            plan(reference, target, missing),
            join(target[i].path, target[i].children[k].name),
        ) == 1,
{
    let directory = target[i];
    let known = children_of(reference, directory.path);
    let path = join(directory.path, directory.children[k].name);
    lemma_plan_count(reference, target, missing, i, k, 0);
    assert(target.subrange(0, target.len() as int) =~= target);
    lemma_entries_hold(Some(known), directory.path, directory.children, k);
    lemma_contains_add(
        entries_plan(Some(known), directory.path, directory.children),
        missing_plan(reference, missing, directory.path, known),
        delete(path),
    );
    lemma_plan_holds(reference, target, missing, i, delete(path));
}

} // verus!
