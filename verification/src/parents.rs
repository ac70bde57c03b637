//! Every create and every copy finds its parent directory: the target has
//! it, or an earlier create makes it.

use crate::creates::lemma_known_valid;
use crate::path::join;
use crate::path::lemma_split_join;
use crate::path::parent_of;
use crate::path::valid_name;
use crate::plan::create;
use crate::plan::directory_plan;
use crate::plan::entries_plan;
use crate::plan::entry_operation;
use crate::plan::expand;
use crate::plan::expand_all;
use crate::plan::lemma_longest_path;
use crate::plan::longest_path;
use crate::plan::missing_plan;
use crate::plan::optional;
use crate::plan::plan;
use crate::plan::Action;
use crate::plan::OperationView;
use crate::tree::children_of;
use crate::tree::dir_index;
use crate::tree::has_dir;
use crate::tree::lemma_dir_index;
use crate::tree::valid_children;
use crate::tree::valid_record;
use crate::tree::well_formed;
use crate::tree::DirectoryView;
use crate::tree::RecordView;
use vstd::prelude::*;

verus! {

/// The operation at index `b` finds the directory that holds its path: the
/// target's tree has it, or it is `given`, or an earlier operation creates
/// it.
pub open spec fn finds_parent(
    ops: Seq<OperationView>,
    target: Seq<DirectoryView>,
    given: Seq<char>,
    b: int,
) -> bool {
    let parent = parent_of(ops[b].path);
    ||| has_dir(target, parent)
    ||| parent == given
    ||| exists|a: int| 0 <= a < b && #[trigger] ops[a] == create(parent)
}

/// Every create and every copy among the operations finds its parent, the
/// directory at `given` taken to be there.
pub open spec fn supplied(
    ops: Seq<OperationView>,
    target: Seq<DirectoryView>,
    given: Seq<char>,
) -> bool {
    forall|b: int|
        0 <= b < ops.len() && (#[trigger] ops[b]).action != Action::Delete ==> finds_parent(
            ops,
            target,
            given,
            b,
        )
}

/// Two supplied runs, one behind the other, are supplied.
pub proof fn lemma_supplied_add(
    x: Seq<OperationView>,
    y: Seq<OperationView>,
    target: Seq<DirectoryView>,
    given: Seq<char>,
)
    requires
        supplied(x, target, given),
        supplied(y, target, given),
    ensures
        supplied(x + y, target, given),
{
    let ops = x + y;
    assert forall|b: int|
        0 <= b < ops.len() && (#[trigger] ops[b]).action != Action::Delete implies finds_parent(
        ops,
        target,
        given,
        b,
    ) by {
        let parent = parent_of(ops[b].path);
        if b < x.len() {
            assert(ops[b] == x[b]);
            assert(finds_parent(x, target, given, b));
            if !has_dir(target, parent) && parent != given {
                let a = choose|a: int| 0 <= a < b && #[trigger] x[a] == create(parent);
                assert(ops[a] == create(parent));
            }
        } else {
            let c = b - x.len();
            assert(ops[b] == y[c]);
            assert(finds_parent(y, target, given, c));
            if !has_dir(target, parent) && parent != given {
                let a = choose|a: int| 0 <= a < c && #[trigger] y[a] == create(parent);
                assert(ops[x.len() + a] == create(parent));
            }
        }
    }
}

/// What is supplied given a directory of the target is supplied given any.
pub proof fn lemma_supplied_by_target(
    ops: Seq<OperationView>,
    target: Seq<DirectoryView>,
    given: Seq<char>,
    other: Seq<char>,
)
    requires
        supplied(ops, target, given),
        has_dir(target, given),
    ensures
        supplied(ops, target, other),
{
    assert forall|b: int|
        0 <= b < ops.len() && (#[trigger] ops[b]).action != Action::Delete implies finds_parent(
        ops,
        target,
        other,
        b,
    ) by {
        assert(finds_parent(ops, target, given, b));
    }
}

/// The expansion of a record is supplied, given the directory that holds
/// the record.
pub proof fn lemma_expand_supplied(
    reference: Seq<DirectoryView>,
    target: Seq<DirectoryView>,
    parent: Seq<char>,
    record: RecordView,
)
    requires
        well_formed(reference),
        valid_name(record.name),
    ensures
        supplied(expand(reference, parent, record), target, parent),
    decreases longest_path(reference) - parent.len(), 0int,
{
    let path = join(parent, record.name);
    let ops = expand(reference, parent, record);
    lemma_split_join(parent, record.name);
    if record.is_dir() && has_dir(reference, path) {
        lemma_longest_path(reference, dir_index(reference, path));
        let children = children_of(reference, path);
        let rest = expand_all(reference, path, children);
        lemma_known_valid(reference, path);
        lemma_expand_all_supplied(reference, target, path, children);
        assert(ops[0] == create(path));
        assert forall|b: int|
            0 <= b < ops.len() && (#[trigger] ops[b]).action != Action::Delete implies finds_parent(
            ops,
            target,
            parent,
            b,
        ) by {
            if b > 0 {
                let above = parent_of(ops[b].path);
                assert(ops[b] == rest[b - 1]);
                assert(finds_parent(rest, target, path, b - 1));
                if !has_dir(target, above) && above != path {
                    let a = choose|a: int| 0 <= a < b - 1 && #[trigger] rest[a] == create(above);
                    assert(ops[a + 1] == create(above));
                }
            }
        }
    }
}

/// The expansions of the records of a directory are supplied, given the
/// directory.
pub proof fn lemma_expand_all_supplied(
    reference: Seq<DirectoryView>,
    target: Seq<DirectoryView>,
    parent: Seq<char>,
    records: Seq<RecordView>,
)
    requires
        well_formed(reference),
        forall|k: int| 0 <= k < records.len() ==> valid_record(#[trigger] records[k]),
    ensures
        supplied(expand_all(reference, parent, records), target, parent),
    decreases longest_path(reference) - parent.len(), records.len() + 1,
{
    if records.len() > 0 {
        let before = records.drop_last();
        assert forall|k: int| 0 <= k < before.len() implies valid_record(#[trigger] before[k]) by {
            assert(before[k] == records[k]);
        }
        assert(valid_record(records[records.len() - 1]));
        lemma_expand_all_supplied(reference, target, parent, before);
        lemma_expand_supplied(reference, target, parent, records.last());
        lemma_supplied_add(
            expand_all(reference, parent, before),
            expand(reference, parent, records.last()),
            target,
            parent,
        );
    }
}

/// The expansions planned for a directory are supplied, given the
/// directory.
pub proof fn lemma_missing_supplied(
    reference: Seq<DirectoryView>,
    target: Seq<DirectoryView>,
    missing: Seq<Seq<char>>,
    parent: Seq<char>,
    records: Seq<RecordView>,
)
    requires
        well_formed(reference),
        forall|k: int| 0 <= k < records.len() ==> valid_record(#[trigger] records[k]),
    ensures
        supplied(missing_plan(reference, missing, parent, records), target, parent),
    decreases records.len(),
{
    if records.len() > 0 {
        let after = records.drop_first();
        assert forall|k: int| 0 <= k < after.len() implies valid_record(#[trigger] after[k]) by {
            assert(after[k] == records[k + 1]);
        }
        assert(valid_record(records[0]));
        lemma_missing_supplied(reference, target, missing, parent, after);
        let first = if missing.contains(join(parent, records.first().name)) {
            expand(reference, parent, records.first())
        } else {
            Seq::<OperationView>::empty()
        };
        if missing.contains(join(parent, records.first().name)) {
            lemma_expand_supplied(reference, target, parent, records.first());
        }
        lemma_supplied_add(
            missing_plan(reference, missing, parent, after),
            first,
            target,
            parent,
        );
    }
}

/// The operations for the entries of a directory are supplied, given the
/// directory.
pub proof fn lemma_entries_supplied(
    known: Option<Seq<RecordView>>,
    target: Seq<DirectoryView>,
    parent: Seq<char>,
    records: Seq<RecordView>,
)
    requires
        forall|k: int| 0 <= k < records.len() ==> valid_record(#[trigger] records[k]),
    ensures
        supplied(entries_plan(known, parent, records), target, parent),
    decreases records.len(),
{
    if records.len() > 0 {
        let after = records.drop_first();
        assert forall|k: int| 0 <= k < after.len() implies valid_record(#[trigger] after[k]) by {
            assert(after[k] == records[k + 1]);
        }
        assert(valid_record(records[0]));
        lemma_entries_supplied(known, target, parent, after);
        let first = optional(entry_operation(known, parent, records.first()));
        lemma_split_join(parent, records.first().name);
        assert(supplied(first, target, parent));
        lemma_supplied_add(entries_plan(known, parent, after), first, target, parent);
    }
}

proof fn lemma_plan_supplied_from(
    reference: Seq<DirectoryView>,
    target: Seq<DirectoryView>,
    missing: Seq<Seq<char>>,
    from: int,
)
    requires
        well_formed(reference),
        well_formed(target),
        0 <= from <= target.len(),
    ensures
        supplied(
            plan(reference, target.subrange(from, target.len() as int), missing),
            target,
            Seq::empty(),
        ),
    decreases target.len() - from,
{
    if from < target.len() {
        let tail = target.subrange(from, target.len() as int);
        let directory = target[from];
        assert(tail.drop_first() =~= target.subrange(from + 1, target.len() as int));
        assert(tail.first() == directory);
        let rest = plan(reference, tail.drop_first(), missing);
        let block = directory_plan(reference, missing, directory);
        lemma_plan_supplied_from(reference, target, missing, from + 1);
        lemma_dir_index(target, from);
        assert(valid_children(directory.children));
        if has_dir(reference, directory.path) {
            let known = children_of(reference, directory.path);
            lemma_known_valid(reference, directory.path);
            lemma_entries_supplied(Some(known), target, directory.path, directory.children);
            lemma_missing_supplied(reference, target, missing, directory.path, known);
            lemma_supplied_add(
                entries_plan(Some(known), directory.path, directory.children),
                missing_plan(reference, missing, directory.path, known),
                target,
                directory.path,
            );
        } else {
            lemma_entries_supplied(None, target, directory.path, directory.children);
        }
        lemma_supplied_by_target(block, target, directory.path, Seq::empty());
        lemma_supplied_add(rest, block, target, Seq::empty());
    }
}

/// In the plan every create and every copy finds the directory that holds
/// its path: it is the root, or a directory of the target's tree, or a
/// directory that an earlier operation of the plan creates. Carried out in
/// order, no operation fails for want of its parent.
pub proof fn lemma_parents_are_there(
    reference: Seq<DirectoryView>,
    target: Seq<DirectoryView>,
    missing: Seq<Seq<char>>,
)
    requires
        well_formed(reference),
        well_formed(target),
    ensures
        supplied(plan(reference, target, missing), target, Seq::empty()),
{
    lemma_plan_supplied_from(reference, target, missing, 0);
    assert(target.subrange(0, target.len() as int) =~= target);
}

} // verus!
