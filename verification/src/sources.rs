//! Where the operations of a plan come from, and where their paths lie.

use crate::path::below;
use crate::path::join;
use crate::path::lemma_below_within;
use crate::path::within;
use crate::plan::copy;
use crate::plan::create;
use crate::plan::directory_plan;
use crate::plan::entries_plan;
use crate::plan::entry_operation;
use crate::plan::expand;
use crate::plan::expand_all;
use crate::plan::lemma_longest_path;
use crate::plan::longest_path;
use crate::plan::missing_plan;
use crate::plan::optional;
use crate::plan::plan;
use crate::plan::Action;
use crate::plan::OperationView;
use crate::tree::children_of;
use crate::tree::dir_index;
use crate::tree::has_dir;
use crate::tree::DirectoryView;
use crate::tree::RecordView;
use vstd::prelude::*;

verus! {

/// What two runs hold together is what either holds.
pub proof fn lemma_contains_add<A>(x: Seq<A>, y: Seq<A>, op: A)
    ensures
        (x + y).contains(op) <==> (x.contains(op) || y.contains(op)),
{
    if x.contains(op) {
        let i = choose|i: int| 0 <= i < x.len() && x[i] == op;
        assert((x + y)[i] == op);
    }
    if y.contains(op) {
        let j = choose|j: int| 0 <= j < y.len() && y[j] == op;
        assert((x + y)[x.len() + j] == op);
    }
    if (x + y).contains(op) {
        let n = choose|n: int| 0 <= n < (x + y).len() && (x + y)[n] == op;
        if n < x.len() {
            assert(x[n] == op);
        } else {
            assert(y[n - x.len()] == op);
        }
    }
}

/// How many of the operations name `path`.
pub open spec fn occurrences(ops: Seq<OperationView>, path: Seq<char>) -> nat
    decreases ops.len(),
{
    if ops.len() == 0 {
        0
    } else {
        occurrences(ops.drop_last(), path) + if ops.last().path == path {
            1nat
        } else {
            0nat
        }
    }
}

/// Occurrences add up over runs put one behind the other.
pub proof fn lemma_occurrences_add(x: Seq<OperationView>, y: Seq<OperationView>, path: Seq<char>)
    ensures
        occurrences(x + y, path) == occurrences(x, path) + occurrences(y, path),
    decreases y.len(),
{
    if y.len() == 0 {
        assert(x + y =~= x);
    } else {
        assert((x + y).drop_last() =~= x + y.drop_last());
        assert((x + y).last() == y.last());
        lemma_occurrences_add(x, y.drop_last(), path);
    }
}

/// A path that no operation names occurs no time.
pub proof fn lemma_occurrences_none(ops: Seq<OperationView>, path: Seq<char>)
    requires
        forall|a: int| 0 <= a < ops.len() ==> (#[trigger] ops[a]).path != path,
    ensures
        occurrences(ops, path) == 0,
    decreases ops.len(),
{
    if ops.len() > 0 {
        let front = ops.drop_last();
        assert forall|a: int| 0 <= a < front.len() implies (#[trigger] front[a]).path != path by {
            assert(front[a] == ops[a]);
        }
        lemma_occurrences_none(front, path);
        assert(ops.last() == ops[ops.len() - 1]);
    }
}

/// No operation names no path; one operation names its own.
pub proof fn lemma_occurrences_optional(operation: Option<OperationView>, path: Seq<char>)
    ensures
        occurrences(optional(operation), path) == (if operation is Some && operation->0.path
            == path {
            1nat
        } else {
            0nat
        }),
{
    let ops = optional(operation);
    if operation is Some {
        assert(ops.drop_last() =~= Seq::<OperationView>::empty());
        assert(occurrences(ops.drop_last(), path) == 0);
        assert(ops.last() == operation->0);
    }
}

/// None of the operations deletes, and each path is `root` or lies below it.
pub open spec fn all_within(ops: Seq<OperationView>, root: Seq<char>) -> bool {
    forall|a: int|
        0 <= a < ops.len() ==> (#[trigger] ops[a]).action != Action::Delete && within(
            ops[a].path,
            root,
        )
}

/// None of the operations deletes, and each path lies below `dir`.
pub open spec fn all_below(ops: Seq<OperationView>, dir: Seq<char>) -> bool {
    forall|a: int|
        0 <= a < ops.len() ==> (#[trigger] ops[a]).action != Action::Delete && below(
            ops[a].path,
            dir,
        )
}

/// The entry of a directory that has a name of its own lies below it.
pub proof fn lemma_join_below(parent: Seq<char>, name: Seq<char>)
    requires
        parent.len() > 0,
    ensures
        below(join(parent, name), parent),
{
    let path = join(parent, name);
    assert(path.subrange(0, parent.len() as int) =~= parent);
    assert(path[parent.len() as int] == '/');
}

/// An expansion starts with the operation for the record itself, deletes
/// nothing, and stays within the record's path.
pub proof fn lemma_expand_region(
    reference: Seq<DirectoryView>,
    parent: Seq<char>,
    record: RecordView,
)
    ensures
        expand(reference, parent, record).len() > 0,
        expand(reference, parent, record)[0] == (if record.is_dir() {
            create(join(parent, record.name))
        } else {
            copy(join(parent, record.name))
        }),
        all_within(expand(reference, parent, record), join(parent, record.name)),
    decreases longest_path(reference) - parent.len(), 0int,
{
    let path = join(parent, record.name);
    let ops = expand(reference, parent, record);
    if record.is_dir() && record.name.len() > 0 && has_dir(reference, path) {
        lemma_longest_path(reference, dir_index(reference, path));
        let rest = expand_all(reference, path, children_of(reference, path));
        lemma_expand_all_region(reference, path, children_of(reference, path));
        assert forall|a: int| 0 <= a < ops.len() implies (#[trigger] ops[a]).action
            != Action::Delete && within(ops[a].path, path) by {
            if a > 0 {
                assert(ops[a] == rest[a - 1]);
            }
        }
    }
}

/// The expansions of the records of a directory delete nothing and stay
/// below the directory.
pub proof fn lemma_expand_all_region(
    reference: Seq<DirectoryView>,
    parent: Seq<char>,
    records: Seq<RecordView>,
)
    requires
        parent.len() > 0,
    ensures
        all_below(expand_all(reference, parent, records), parent),
    decreases longest_path(reference) - parent.len(), records.len() + 1,
{
    if records.len() > 0 {
        let front = expand_all(reference, parent, records.drop_last());
        let last = expand(reference, parent, records.last());
        let ops = expand_all(reference, parent, records);
        let root = join(parent, records.last().name);
        lemma_expand_all_region(reference, parent, records.drop_last());
        lemma_expand_region(reference, parent, records.last());
        lemma_join_below(parent, records.last().name);
        assert forall|a: int| 0 <= a < ops.len() implies (#[trigger] ops[a]).action
            != Action::Delete && below(ops[a].path, parent) by {
            if a < front.len() {
                assert(ops[a] == front[a]);
            } else {
                let op = last[a - front.len()];
                assert(ops[a] == op);
                if op.path != root {
                    lemma_below_within(op.path, root, parent);
                }
            }
        }
    }
}

/// What an entry calls for stands in the plan of its directory's entries.
pub proof fn lemma_entries_hold(
    known: Option<Seq<RecordView>>,
    parent: Seq<char>,
    records: Seq<RecordView>,
    k: int,
)
    requires
        0 <= k < records.len(),
        entry_operation(known, parent, records[k]) is Some,
    ensures
        entries_plan(known, parent, records).contains(
            entry_operation(known, parent, records[k])->0,
        ),
    decreases records.len(),
{
    let op = entry_operation(known, parent, records[k])->0;
    let rest = entries_plan(known, parent, records.drop_first());
    let first = optional(entry_operation(known, parent, records.first()));
    if k == 0 {
        assert(first[0] == op);
    } else {
        assert(records.drop_first()[k - 1] == records[k]);
        lemma_entries_hold(known, parent, records.drop_first(), k - 1);
    }
    lemma_contains_add(rest, first, op);
}

/// What the plan of one directory of the target holds, the whole plan holds.
pub proof fn lemma_plan_holds(
    reference: Seq<DirectoryView>,
    target: Seq<DirectoryView>,
    missing: Seq<Seq<char>>,
    i: int,
    op: OperationView,
)
    requires
        0 <= i < target.len(),
        directory_plan(reference, missing, target[i]).contains(op),
    ensures
        plan(reference, target, missing).contains(op),
    decreases target.len(),
{
    let rest = plan(reference, target.drop_first(), missing);
    let first = directory_plan(reference, missing, target.first());
    if i > 0 {
        assert(target.drop_first()[i - 1] == target[i]);
        lemma_plan_holds(reference, target.drop_first(), missing, i - 1, op);
    }
    lemma_contains_add(rest, first, op);
}

/// `path` is the path of one of `records`, the entries of `parent`.
pub open spec fn names_entry(parent: Seq<char>, records: Seq<RecordView>, path: Seq<char>) -> bool {
    exists|k: int| 0 <= k < records.len() && path == join(parent, (#[trigger] records[k]).name)
}

/// `path` lies within the path of one of `records`, the entries of
/// `parent`, that is reported missing.
pub open spec fn expanded_from(
    missing: Seq<Seq<char>>,
    parent: Seq<char>,
    records: Seq<RecordView>,
    path: Seq<char>,
) -> bool {
    exists|k: int|
        0 <= k < records.len() && missing.contains(join(parent, (#[trigger] records[k]).name))
            && within(path, join(parent, records[k].name))
}

/// The operations for the entries of a directory create nothing, and each
/// names one of the entries.
pub proof fn lemma_entries_from(
    known: Option<Seq<RecordView>>,
    parent: Seq<char>,
    records: Seq<RecordView>,
)
    ensures
        forall|a: int|
            0 <= a < entries_plan(known, parent, records).len() ==> (#[trigger] entries_plan(
                known,
                parent,
                records,
            )[a]).action != Action::Create && names_entry(
                parent,
                records,
                entries_plan(known, parent, records)[a].path,
            ),
    decreases records.len(),
{
    let ops = entries_plan(known, parent, records);
    if records.len() > 0 {
        let rest = entries_plan(known, parent, records.drop_first());
        let first = optional(entry_operation(known, parent, records.first()));
        lemma_entries_from(known, parent, records.drop_first());
        assert forall|a: int| 0 <= a < ops.len() implies (#[trigger] ops[a]).action
            != Action::Create && names_entry(parent, records, ops[a].path) by {
            if a < rest.len() {
                assert(ops[a] == rest[a]);
                assert(names_entry(parent, records.drop_first(), rest[a].path));
                let k = choose|k: int|
                    0 <= k < records.drop_first().len() && rest[a].path == join(
                        parent,
                        (#[trigger] records.drop_first()[k]).name,
                    );
                assert(records[k + 1] == records.drop_first()[k]);
            } else {
                assert(ops[a] == first[a - rest.len()]);
                assert(records[0] == records.first());
            }
        }
    }
}

/// The expansions planned for a directory delete nothing, and each
/// operation stays within the path of a record that is reported missing.
pub proof fn lemma_missing_region(
    reference: Seq<DirectoryView>,
    missing: Seq<Seq<char>>,
    parent: Seq<char>,
    records: Seq<RecordView>,
)
    ensures
        forall|a: int|
            0 <= a < missing_plan(reference, missing, parent, records).len() ==> (
            #[trigger] missing_plan(reference, missing, parent, records)[a]).action
                != Action::Delete && expanded_from(
                missing,
                parent,
                records,
                missing_plan(reference, missing, parent, records)[a].path,
            ),
    decreases records.len(),
{
    let ops = missing_plan(reference, missing, parent, records);
    if records.len() > 0 {
        let rest = missing_plan(reference, missing, parent, records.drop_first());
        let root = join(parent, records.first().name);
        let first = if missing.contains(root) {
            expand(reference, parent, records.first())
        } else {
            Seq::<OperationView>::empty()
        };
        lemma_missing_region(reference, missing, parent, records.drop_first());
        lemma_expand_region(reference, parent, records.first());
        assert forall|a: int| 0 <= a < ops.len() implies (#[trigger] ops[a]).action
            != Action::Delete && expanded_from(missing, parent, records, ops[a].path) by {
            if a < rest.len() {
                assert(ops[a] == rest[a]);
                assert(expanded_from(missing, parent, records.drop_first(), rest[a].path));
                let k = choose|k: int|
                    0 <= k < records.drop_first().len() && missing.contains(
                        join(parent, (#[trigger] records.drop_first()[k]).name),
                    ) && within(rest[a].path, join(parent, records.drop_first()[k].name));
                assert(records[k + 1] == records.drop_first()[k]);
            } else {
                assert(ops[a] == first[a - rest.len()]);
                assert(records[0] == records.first());
            }
        }
    }
}

} // verus!
