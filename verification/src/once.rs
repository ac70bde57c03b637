//! What an expansion plans for a path, the whole plan plans for it once: no
//! other operation of the plan names a path within a missing record.

use crate::creates::lemma_expand_all_roots;
use crate::creates::lemma_known_valid;
use crate::creates::lemma_roots_apart;
use crate::creates::lemma_siblings_apart;
use crate::creates::on_disk;
use crate::creates::under_entry;
use crate::path::join;
use crate::path::lemma_split_join;
use crate::path::lemma_within_comparable;
use crate::path::valid_name;
use crate::path::within;
use crate::plan::create;
use crate::plan::directory_plan;
use crate::plan::entries_plan;
use crate::plan::expand;
use crate::plan::expand_all;
use crate::plan::lemma_line_injective;
use crate::plan::line;
use crate::plan::lines_of;
use crate::plan::missing_plan;
use crate::plan::plan;
use crate::plan::OperationView;
use crate::mismatch::lemma_entries_elsewhere;
use crate::sources::lemma_expand_all_region;
use crate::sources::lemma_expand_region;
use crate::sources::lemma_occurrences_add;
use crate::sources::lemma_occurrences_none;
use crate::sources::lemma_occurrences_optional;
use crate::sources::occurrences;
use crate::tree::children_of;
use crate::tree::has_dir;
use crate::tree::valid_children;
use crate::tree::valid_record;
use crate::tree::well_formed;
use crate::tree::DirectoryView;
use crate::tree::RecordView;
use vstd::prelude::*;

verus! {

/// A path within one of two entries of a directory does not lie within the
/// other.
pub proof fn lemma_within_one_sibling(
    parent: Seq<char>,
    first: Seq<char>,
    second: Seq<char>,
    path: Seq<char>,
)
    requires
        valid_name(first),
        valid_name(second),
        first != second,
        within(path, join(parent, first)),
    ensures
        !within(path, join(parent, second)),
{
    if within(path, join(parent, second)) {
        lemma_within_comparable(path, join(parent, first), join(parent, second));
        lemma_siblings_apart(parent, first, second);
        lemma_siblings_apart(parent, second, first);
    }
}

/// The expansion of a record names no path outside the record's own.
pub proof fn lemma_expand_misses(
    reference: Seq<DirectoryView>,
    parent: Seq<char>,
    record: RecordView,
    path: Seq<char>,
)
    requires
        !within(path, join(parent, record.name)),
    ensures
        occurrences(expand(reference, parent, record), path) == 0,
{
    lemma_expand_region(reference, parent, record);
    lemma_occurrences_none(expand(reference, parent, record), path);
}

/// The expansions of the records of a directory name no path that lies
/// within none of the records.
pub proof fn lemma_expand_all_misses(
    reference: Seq<DirectoryView>,
    parent: Seq<char>,
    records: Seq<RecordView>,
    path: Seq<char>,
)
    requires
        !under_entry(parent, records, path),
    ensures
        occurrences(expand_all(reference, parent, records), path) == 0,
{
    lemma_expand_all_roots(reference, parent, records);
    lemma_occurrences_none(expand_all(reference, parent, records), path);
}

/// The expansion of a record names the record's own path once.
pub proof fn lemma_expand_names_record_once(
    reference: Seq<DirectoryView>,
    parent: Seq<char>,
    record: RecordView,
)
    requires
        valid_name(record.name),
    ensures
        occurrences(expand(reference, parent, record), join(parent, record.name)) == 1,
{
    let path = join(parent, record.name);
    let ops = expand(reference, parent, record);
    lemma_expand_region(reference, parent, record);
    lemma_occurrences_optional(Some(ops[0]), path);
    if record.is_dir() && has_dir(reference, path) {
        let rest = expand_all(reference, path, children_of(reference, path));
        lemma_expand_all_region(reference, path, children_of(reference, path));
        lemma_occurrences_none(rest, path);
        lemma_occurrences_add(seq![create(path)], rest, path);
        assert(seq![create(path)] =~= seq![ops[0]]);
    } else {
        assert(ops =~= seq![ops[0]]);
    }
}

/// The expansions of the records of a directory name the path of each of
/// the records once.
pub proof fn lemma_expand_all_names_record_once(
    reference: Seq<DirectoryView>,
    parent: Seq<char>,
    records: Seq<RecordView>,
    c: int,
)
    requires
        valid_children(records),
        0 <= c < records.len(),
    ensures
        occurrences(expand_all(reference, parent, records), join(parent, records[c].name)) == 1,
    decreases records.len(),
{
    let path = join(parent, records[c].name);
    let end = records.len() - 1;
    let before = records.drop_last();
    let front = expand_all(reference, parent, before);
    let last = expand(reference, parent, records.last());
    assert(records.last() == records[end]);
    assert(valid_record(records[c]) && valid_record(records[end]));
    lemma_occurrences_add(front, last, path);
    if c == end {
        lemma_expand_names_record_once(reference, parent, records[end]);
        if under_entry(parent, before, path) {
            let k = choose|k: int|
                0 <= k < before.len() && within(path, join(parent, (#[trigger] before[k]).name));
            assert(before[k] == records[k]);
            assert(valid_record(records[k]));
            assert(records[k].name != records[end].name);
            lemma_within_one_sibling(parent, records[end].name, records[k].name, path);
        }
        lemma_expand_all_misses(reference, parent, before, path);
    } else {
        assert(before[c] == records[c]);
        assert(valid_children(before)) by {
            assert forall|k: int| 0 <= k < before.len() implies valid_record(
                #[trigger] before[k],
            ) by {
                assert(before[k] == records[k]);
            }
            assert forall|k: int, l: int| 0 <= k < l < before.len() implies (
            #[trigger] before[k]).name != (#[trigger] before[l]).name by {
                assert(before[k] == records[k] && before[l] == records[l]);
            }
        }
        lemma_expand_all_names_record_once(reference, parent, before, c);
        assert(records[c].name != records[end].name);
        lemma_within_one_sibling(parent, records[c].name, records[end].name, path);
        lemma_expand_misses(reference, parent, records[end], path);
    }
}

/// The expansions planned for a directory name no path that lies within
/// none of the records that are reported missing.
pub proof fn lemma_missing_plan_misses(
    reference: Seq<DirectoryView>,
    missing: Seq<Seq<char>>,
    parent: Seq<char>,
    records: Seq<RecordView>,
    path: Seq<char>,
)
    requires
        forall|l: int|
            0 <= l < records.len() && missing.contains(join(parent, (#[trigger] records[l]).name))
                ==> !within(path, join(parent, records[l].name)),
    ensures
        occurrences(missing_plan(reference, missing, parent, records), path) == 0,
    decreases records.len(),
{
    if records.len() > 0 {
        let after = records.drop_first();
        assert forall|l: int|
            0 <= l < after.len() && missing.contains(
                join(parent, (#[trigger] after[l]).name),
            ) implies !within(path, join(parent, after[l].name)) by {
            assert(after[l] == records[l + 1]);
        }
        lemma_missing_plan_misses(reference, missing, parent, after, path);
        let root = join(parent, records.first().name);
        let first = if missing.contains(root) {
            expand(reference, parent, records.first())
        } else {
            Seq::<OperationView>::empty()
        };
        assert(records.first() == records[0]);
        if missing.contains(root) {
            lemma_expand_misses(reference, parent, records.first(), path);
        }
        lemma_occurrences_add(missing_plan(reference, missing, parent, after), first, path);
    }
}

/// Among the expansions planned for a directory, a path within a record
/// that is reported missing is named as often as the expansion of that
/// record names it.
pub proof fn lemma_missing_plan_counts(
    reference: Seq<DirectoryView>,
    missing: Seq<Seq<char>>,
    parent: Seq<char>,
    records: Seq<RecordView>,
    k: int,
    path: Seq<char>,
)
    requires
        valid_children(records),
        0 <= k < records.len(),
        missing.contains(join(parent, records[k].name)),
        within(path, join(parent, records[k].name)),
    ensures
        occurrences(missing_plan(reference, missing, parent, records), path) == occurrences(
            expand(reference, parent, records[k]),
            path,
        ),
    decreases records.len(),
{
    let after = records.drop_first();
    let rest = missing_plan(reference, missing, parent, after);
    let root = join(parent, records.first().name);
    let first = if missing.contains(root) {
        expand(reference, parent, records.first())
    } else {
        Seq::<OperationView>::empty()
    };
    assert(records.first() == records[0]);
    assert(valid_record(records[0]) && valid_record(records[k]));
    lemma_occurrences_add(rest, first, path);
    if k == 0 {
        assert forall|l: int|
            0 <= l < after.len() && missing.contains(
                join(parent, (#[trigger] after[l]).name),
            ) implies !within(path, join(parent, after[l].name)) by {
            assert(after[l] == records[l + 1]);
            assert(valid_record(records[l + 1]));
            assert(records[0].name != records[l + 1].name);
            lemma_within_one_sibling(parent, records[0].name, records[l + 1].name, path);
        }
        lemma_missing_plan_misses(reference, missing, parent, after, path);
    } else {
        assert(after[k - 1] == records[k]);
        assert(valid_children(after)) by {
            assert forall|a: int| 0 <= a < after.len() implies valid_record(
                #[trigger] after[a],
            ) by {
                assert(after[a] == records[a + 1]);
            }
            assert forall|a: int, b: int| 0 <= a < b < after.len() implies (
            #[trigger] after[a]).name != (#[trigger] after[b]).name by {
                assert(after[a] == records[a + 1] && after[b] == records[b + 1]);
            }
        }
        lemma_missing_plan_counts(reference, missing, parent, after, k - 1, path);
        assert(records[0].name != records[k].name);
        lemma_within_one_sibling(parent, records[k].name, records[0].name, path);
        if missing.contains(root) {
            lemma_expand_misses(reference, parent, records.first(), path);
        }
    }
}

proof fn lemma_plan_counts_from(
    reference: Seq<DirectoryView>,
    target: Seq<DirectoryView>,
    missing: Seq<Seq<char>>,
    i: int,
    k: int,
    path: Seq<char>,
    from: int,
)
    requires
        well_formed(reference),
        well_formed(target),
        on_disk(target, missing),
        0 <= i < target.len(),
        has_dir(reference, target[i].path),
        0 <= k < children_of(reference, target[i].path).len(),
        missing.contains(join(target[i].path, children_of(reference, target[i].path)[k].name)),
        within(path, join(target[i].path, children_of(reference, target[i].path)[k].name)),
        0 <= from <= target.len(),
    ensures
        occurrences(plan(reference, target.subrange(from, target.len() as int), missing), path)
            == (if from <= i {
            occurrences(
                expand(reference, target[i].path, children_of(reference, target[i].path)[k]),
                path,
            )
        } else {
            0
        }),
    decreases target.len() - from,
{
    if from < target.len() {
        let tail = target.subrange(from, target.len() as int);
        let directory = target[from];
        assert(tail.drop_first() =~= target.subrange(from + 1, target.len() as int));
        assert(tail.first() == directory);
        let rest = plan(reference, tail.drop_first(), missing);
        let block = directory_plan(reference, missing, directory);
        lemma_plan_counts_from(reference, target, missing, i, k, path, from + 1);
        lemma_occurrences_add(rest, block, path);
        let wanted = children_of(reference, target[i].path);
        let name = wanted[k].name;
        let root = join(target[i].path, name);
        let m = choose|m: int| 0 <= m < missing.len() && missing[m] == root;
        lemma_known_valid(reference, target[i].path);
        assert(valid_record(wanted[k]));
        // No entry of the target has the path: the disk has the entries.
        assert forall|l: int| 0 <= l < directory.children.len() implies join(
            directory.path,
            (#[trigger] directory.children[l]).name,
        ) != path by {
            assert(!within(join(directory.path, directory.children[l].name), missing[m]));
        }
        if has_dir(reference, directory.path) {
            let known = children_of(reference, directory.path);
            let entries = entries_plan(Some(known), directory.path, directory.children);
            let expansions = missing_plan(reference, missing, directory.path, known);
            lemma_entries_elsewhere(Some(known), directory.path, directory.children, path);
            lemma_occurrences_add(entries, expansions, path);
            lemma_known_valid(reference, directory.path);
            if from == i {
                lemma_missing_plan_counts(reference, missing, directory.path, known, k, path);
            } else {
                assert forall|l: int|
                    0 <= l < known.len() && missing.contains(
                        join(directory.path, (#[trigger] known[l]).name),
                    ) implies !within(path, join(directory.path, known[l].name)) by {
                    assert(valid_record(known[l]));
                    if within(path, join(directory.path, known[l].name)) {
                        lemma_within_comparable(
                            path,
                            root,
                            join(directory.path, known[l].name),
                        );
                        lemma_roots_apart(target, missing, i, from, name, known[l].name);
                        lemma_roots_apart(target, missing, from, i, known[l].name, name);
                    }
                }
                lemma_missing_plan_misses(reference, missing, directory.path, known, path);
            }
        } else {
            lemma_entries_elsewhere(None, directory.path, directory.children, path);
        }
    }
}

/// Where the disk has what the target's tree lists, a path within a record
/// that the reference lists in a directory of the target, and that is
/// reported missing, is named in the plan as often as the expansion of
/// that record names it: nothing else in the plan touches what an expansion
/// makes. `i` is the index of the directory in the target, `k` that of the
/// record among the reference's records there.
pub proof fn lemma_plan_counts_expansion(
    reference: Seq<DirectoryView>,
    target: Seq<DirectoryView>,
    missing: Seq<Seq<char>>,
    i: int,
    k: int,
    path: Seq<char>,
)
    requires
        well_formed(reference),
        well_formed(target),
        on_disk(target, missing),
        0 <= i < target.len(),
        has_dir(reference, target[i].path),
        0 <= k < children_of(reference, target[i].path).len(),
        missing.contains(join(target[i].path, children_of(reference, target[i].path)[k].name)),
        within(path, join(target[i].path, children_of(reference, target[i].path)[k].name)),
    ensures
        occurrences(plan(reference, target, missing), path) == occurrences(
            expand(reference, target[i].path, children_of(reference, target[i].path)[k]),
            path,
        ),
{
    lemma_plan_counts_from(reference, target, missing, i, k, path, 0);
    assert(target.subrange(0, target.len() as int) =~= target);
}

/// The expansion of a directory that the reference has names the path of
/// each child of the directory once.
pub proof fn lemma_expand_names_child_once(
    reference: Seq<DirectoryView>,
    parent: Seq<char>,
    record: RecordView,
    c: int,
)
    requires
        well_formed(reference),
        valid_name(record.name),
        record.is_dir(),
        has_dir(reference, join(parent, record.name)),
        0 <= c < children_of(reference, join(parent, record.name)).len(),
    ensures
        occurrences(
            expand(reference, parent, record),
            join(
                join(parent, record.name),
                children_of(reference, join(parent, record.name))[c].name,
            ),
        ) == 1,
{
    let made = join(parent, record.name);
    let children = children_of(reference, made);
    let path = join(made, children[c].name);
    let rest = expand_all(reference, made, children);
    lemma_known_valid(reference, made);
    assert(valid_record(children[c]));
    lemma_split_join(made, children[c].name);
    lemma_expand_all_names_record_once(reference, made, children, c);
    lemma_occurrences_optional(Some(create(made)), path);
    lemma_occurrences_add(seq![create(made)], rest, path);
}

/// How many of the lines read `text`.
pub open spec fn times(lines: Seq<Seq<char>>, text: Seq<char>) -> nat
    decreases lines.len(),
{
    if lines.len() == 0 {
        0
    } else {
        times(lines.drop_last(), text) + if lines.last() == text {
            1nat
        } else {
            0nat
        }
    }
}

/// The line of an operation comes no more often than operations name its
/// path, and at least once where the operation is there.
pub proof fn lemma_line_times(ops: Seq<OperationView>, op: OperationView)
    ensures
        times(lines_of(ops), line(op)) <= occurrences(ops, op.path),
        ops.contains(op) ==> times(lines_of(ops), line(op)) >= 1,
    decreases ops.len(),
{
    if ops.len() > 0 {
        let front = ops.drop_last();
        lemma_line_times(front, op);
        assert(lines_of(ops).drop_last() =~= lines_of(front));
        assert(lines_of(ops).last() == line(ops.last()));
        if line(ops.last()) == line(op) {
            lemma_line_injective(ops.last(), op);
        }
        if ops.contains(op) {
            let i = choose|i: int| 0 <= i < ops.len() && ops[i] == op;
            if i < front.len() {
                assert(front[i] == op);
            }
        }
    }
}

/// An operation of the plan whose path no other operation names stands on
/// one line of the output, and that line comes once.
pub proof fn lemma_line_once(ops: Seq<OperationView>, op: OperationView)
    requires
        ops.contains(op),
        occurrences(ops, op.path) == 1,
    ensures
        times(lines_of(ops), line(op)) == 1,
{
    lemma_line_times(ops, op);
}

} // verus!
