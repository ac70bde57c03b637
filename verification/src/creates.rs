//! Creates come first: a directory is created before anything is created or
//! copied below it.

use crate::once::lemma_expand_names_child_once;
use crate::once::lemma_expand_names_record_once;
use crate::once::lemma_plan_counts_expansion;
use crate::path::below;
use crate::path::join;
use crate::path::lemma_below_within;
use crate::path::lemma_join_injective;
use crate::path::lemma_parent_within;
use crate::path::lemma_split_join;
use crate::path::lemma_within_comparable;
use crate::path::valid_name;
use crate::path::within;
use crate::plan::copy;
use crate::plan::create;
use crate::plan::directory_plan;
use crate::plan::entries_plan;
use crate::plan::expand;
use crate::plan::expand_all;
use crate::plan::lemma_longest_path;
use crate::plan::longest_path;
use crate::plan::missing_plan;
use crate::plan::plan;
use crate::plan::Action;
use crate::plan::OperationView;
use crate::sources::expanded_from;
use crate::sources::lemma_contains_add;
use crate::sources::lemma_entries_from;
use crate::sources::lemma_expand_all_region;
use crate::sources::lemma_expand_region;
use crate::sources::lemma_missing_region;
use crate::sources::lemma_plan_holds;
use crate::sources::names_entry;
use crate::sources::occurrences;
use crate::tree::children_of;
use crate::tree::dir_index;
use crate::tree::has_dir;
use crate::tree::listed_before;
use crate::tree::lists;
use crate::tree::valid_children;
use crate::tree::valid_record;
use crate::tree::well_formed;
use crate::tree::DirectoryView;
use crate::tree::RecordView;
use vstd::prelude::*;

verus! {

/// No create is preceded by a create or a copy of something that lies below
/// its path.
pub open spec fn creates_ordered(ops: Seq<OperationView>) -> bool {
    forall|a: int, b: int|
        0 <= a < b < ops.len() && (#[trigger] ops[b]).action == Action::Create && (
        #[trigger] ops[a]).action != Action::Delete ==> !below(ops[a].path, ops[b].path)
}

/// The disk has what the target's tree lists: no entry of the tree is
/// reported missing, nor lies below a path that is.
pub open spec fn on_disk(target: Seq<DirectoryView>, missing: Seq<Seq<char>>) -> bool {
    forall|i: int, k: int, m: int|
        0 <= i < target.len() && 0 <= k < target[i].children.len() && 0 <= m < missing.len()
            ==> !within(
            join(target[i].path, (#[trigger] target[i].children[k]).name),
            #[trigger] missing[m],
        )
}

/// `path` lies within the path of one of `records`, the entries of `parent`.
pub open spec fn under_entry(parent: Seq<char>, records: Seq<RecordView>, path: Seq<char>) -> bool {
    exists|k: int|
        0 <= k < records.len() && within(path, join(parent, (#[trigger] records[k]).name))
}

/// Where an operation of the plan of one directory of the target comes
/// from: it is the operation for an entry of the directory and creates
/// nothing, or it belongs to an expansion and deletes nothing.
pub open spec fn source_in(
    reference: Seq<DirectoryView>,
    missing: Seq<Seq<char>>,
    directory: DirectoryView,
    op: OperationView,
) -> bool {
    ||| (op.action != Action::Create && names_entry(directory.path, directory.children, op.path))
    ||| (op.action != Action::Delete && has_dir(reference, directory.path) && expanded_from(
        missing,
        directory.path,
        children_of(reference, directory.path),
        op.path,
    ))
}

/// Two entries of one directory with different names: neither lies within
/// the other.
pub proof fn lemma_siblings_apart(parent: Seq<char>, first: Seq<char>, second: Seq<char>)
    requires
        valid_name(first),
        valid_name(second),
        first != second,
    ensures
        !within(join(parent, first), join(parent, second)),
{
    if join(parent, first) == join(parent, second) {
        lemma_join_injective(parent, first, parent, second);
    } else if below(join(parent, first), join(parent, second)) {
        lemma_parent_within(parent, first, join(parent, second));
        lemma_split_join(parent, second);
    }
}

/// Where a path within one region lies below a path within another, one
/// region lies within the other.
pub proof fn lemma_regions_meet(
    path: Seq<char>,
    above: Seq<char>,
    region: Seq<char>,
    other: Seq<char>,
)
    requires
        within(path, region),
        within(above, other),
        below(path, above),
    ensures
        within(region, other) || within(other, region),
{
    lemma_below_within(path, above, other);
    lemma_within_comparable(path, region, other);
}

/// The children that a well-formed tree has for a directory are valid.
pub proof fn lemma_known_valid(reference: Seq<DirectoryView>, path: Seq<char>)
    requires
        well_formed(reference),
        has_dir(reference, path),
    ensures
        valid_children(children_of(reference, path)),
{
    let at = dir_index(reference, path);
    assert(valid_children(reference[at].children));
}

/// No directory of the target lies within a path that is reported missing.
pub proof fn lemma_dir_on_disk(
    target: Seq<DirectoryView>,
    missing: Seq<Seq<char>>,
    j: int,
    m: int,
)
    requires
        well_formed(target),
        on_disk(target, missing),
        0 <= j < target.len(),
        0 <= m < missing.len(),
        missing[m].len() > 0,
    ensures
        !within(target[j].path, missing[m]),
{
    if j > 0 {
        assert(listed_before(target, j));
        let above = choose|above: int|
            0 <= above < j && #[trigger] lists(target, above, target[j].path);
        let k = choose|k: int|
            0 <= k < target[above].children.len() && (#[trigger] target[above].children[k]).is_dir()
                && join(target[above].path, target[above].children[k].name) == target[j].path;
        assert(!within(join(target[above].path, target[above].children[k].name), missing[m]));
    }
}

/// The roots of two expansions that start in different directories of the
/// target: the one does not lie within the other.
pub proof fn lemma_roots_apart(
    target: Seq<DirectoryView>,
    missing: Seq<Seq<char>>,
    i: int,
    j: int,
    first: Seq<char>,
    second: Seq<char>,
)
    requires
        well_formed(target),
        on_disk(target, missing),
        0 <= i < target.len(),
        0 <= j < target.len(),
        i != j,
        valid_name(first),
        valid_name(second),
        missing.contains(join(target[j].path, second)),
    ensures
        !within(join(target[i].path, first), join(target[j].path, second)),
{
    let root = join(target[i].path, first);
    let other = join(target[j].path, second);
    if root == other {
        lemma_join_injective(target[i].path, first, target[j].path, second);
        if i < j {
            assert(target[i].path != target[j].path);
        } else {
            assert(target[j].path != target[i].path);
        }
    } else if below(root, other) {
        lemma_parent_within(target[i].path, first, other);
        lemma_split_join(target[j].path, second);
        let m = choose|m: int| 0 <= m < missing.len() && missing[m] == other;
        lemma_dir_on_disk(target, missing, i, m);
    }
}

/// Each operation of the expansions of `records` stays within the path of
/// one of them.
pub proof fn lemma_expand_all_roots(
    reference: Seq<DirectoryView>,
    parent: Seq<char>,
    records: Seq<RecordView>,
)
    ensures
        forall|a: int|
            0 <= a < expand_all(reference, parent, records).len() ==> under_entry(
                parent,
                records,
                (#[trigger] expand_all(reference, parent, records)[a]).path,
            ),
    decreases records.len(),
{
    let ops = expand_all(reference, parent, records);
    if records.len() > 0 {
        let front = expand_all(reference, parent, records.drop_last());
        let last = expand(reference, parent, records.last());
        lemma_expand_all_roots(reference, parent, records.drop_last());
        lemma_expand_region(reference, parent, records.last());
        assert forall|a: int| 0 <= a < ops.len() implies under_entry(
            parent,
            records,
            (#[trigger] ops[a]).path,
        ) by {
            if a < front.len() {
                assert(ops[a] == front[a]);
                assert(under_entry(parent, records.drop_last(), front[a].path));
                let k = choose|k: int|
                    0 <= k < records.drop_last().len() && within(
                        front[a].path,
                        join(parent, (#[trigger] records.drop_last()[k]).name),
                    );
                assert(records[k] == records.drop_last()[k]);
            } else {
                assert(ops[a] == last[a - front.len()]);
                assert(records[records.len() - 1] == records.last());
            }
        }
    }
}

/// Within the expansion of one record the creates come first.
pub proof fn lemma_expand_ordered(
    reference: Seq<DirectoryView>,
    parent: Seq<char>,
    record: RecordView,
)
    requires
        well_formed(reference),
    ensures
        creates_ordered(expand(reference, parent, record)),
    decreases longest_path(reference) - parent.len(), 0int,
{
    let path = join(parent, record.name);
    let ops = expand(reference, parent, record);
    if record.is_dir() && record.name.len() > 0 && has_dir(reference, path) {
        lemma_longest_path(reference, dir_index(reference, path));
        let children = children_of(reference, path);
        let rest = expand_all(reference, path, children);
        lemma_known_valid(reference, path);
        lemma_expand_all_ordered(reference, path, children);
        lemma_expand_all_region(reference, path, children);
        assert forall|a: int, b: int|
            0 <= a < b < ops.len() && (#[trigger] ops[b]).action == Action::Create && (
            #[trigger] ops[a]).action != Action::Delete implies !below(ops[a].path, ops[b].path) by {
            assert(ops[b] == rest[b - 1]);
            if a > 0 {
                assert(ops[a] == rest[a - 1]);
            } else {
                assert(below(rest[b - 1].path, path));
            }
        }
    }
}

/// Within the expansions of the records of one directory the creates come
/// first.
pub proof fn lemma_expand_all_ordered(
    reference: Seq<DirectoryView>,
    parent: Seq<char>,
    records: Seq<RecordView>,
)
    requires
        well_formed(reference),
        valid_children(records),
    ensures
        creates_ordered(expand_all(reference, parent, records)),
    decreases longest_path(reference) - parent.len(), records.len() + 1,
{
    let ops = expand_all(reference, parent, records);
    if records.len() > 0 {
        let before = records.drop_last();
        let front = expand_all(reference, parent, before);
        let last = expand(reference, parent, records.last());
        let root = join(parent, records.last().name);
        assert(valid_children(before)) by {
            assert forall|k: int| 0 <= k < before.len() implies valid_record(
                #[trigger] before[k],
            ) by {
                assert(before[k] == records[k]);
            }
            assert forall|k: int, l: int| 0 <= k < l < before.len() implies (
            #[trigger] before[k]).name != (#[trigger] before[l]).name by {
                assert(before[k] == records[k] && before[l] == records[l]);
            }
        }
        lemma_expand_all_ordered(reference, parent, before);
        lemma_expand_ordered(reference, parent, records.last());
        lemma_expand_all_roots(reference, parent, before);
        lemma_expand_region(reference, parent, records.last());
        assert forall|a: int, b: int|
            0 <= a < b < ops.len() && (#[trigger] ops[b]).action == Action::Create && (
            #[trigger] ops[a]).action != Action::Delete implies !below(ops[a].path, ops[b].path) by {
            if b < front.len() {
                assert(ops[a] == front[a] && ops[b] == front[b]);
            } else if a >= front.len() {
                assert(ops[a] == last[a - front.len()] && ops[b] == last[b - front.len()]);
            } else {
                assert(ops[a] == front[a] && ops[b] == last[b - front.len()]);
                assert(under_entry(parent, before, front[a].path));
                let k = choose|k: int|
                    0 <= k < before.len() && within(
                        front[a].path,
                        join(parent, (#[trigger] before[k]).name),
                    );
                if below(ops[a].path, ops[b].path) {
                    let end = records.len() - 1;
                    assert(before[k] == records[k] && records.last() == records[end]);
                    assert(valid_record(records[k]) && valid_record(records[end]));
                    assert(records[k].name != records[end].name);
                    lemma_regions_meet(ops[a].path, ops[b].path, join(parent, records[k].name), root);
                    lemma_siblings_apart(parent, records[k].name, records[end].name);
                    lemma_siblings_apart(parent, records[end].name, records[k].name);
                }
            }
        }
    }
}

/// Within the expansions planned for one directory of the target the
/// creates come first.
pub proof fn lemma_missing_ordered(
    reference: Seq<DirectoryView>,
    missing: Seq<Seq<char>>,
    parent: Seq<char>,
    records: Seq<RecordView>,
)
    requires
        well_formed(reference),
        valid_children(records),
    ensures
        creates_ordered(missing_plan(reference, missing, parent, records)),
    decreases records.len(),
{
    let ops = missing_plan(reference, missing, parent, records);
    if records.len() > 0 {
        let after = records.drop_first();
        let rest = missing_plan(reference, missing, parent, after);
        let root = join(parent, records.first().name);
        let first = if missing.contains(root) {
            expand(reference, parent, records.first())
        } else {
            Seq::<OperationView>::empty()
        };
        assert(valid_children(after)) by {
            assert forall|k: int| 0 <= k < after.len() implies valid_record(
                #[trigger] after[k],
            ) by {
                assert(after[k] == records[k + 1]);
            }
            assert forall|k: int, l: int| 0 <= k < l < after.len() implies (
            #[trigger] after[k]).name != (#[trigger] after[l]).name by {
                assert(after[k] == records[k + 1] && after[l] == records[l + 1]);
            }
        }
        lemma_missing_ordered(reference, missing, parent, after);
        lemma_expand_ordered(reference, parent, records.first());
        lemma_missing_region(reference, missing, parent, after);
        lemma_expand_region(reference, parent, records.first());
        assert forall|a: int, b: int|
            0 <= a < b < ops.len() && (#[trigger] ops[b]).action == Action::Create && (
            #[trigger] ops[a]).action != Action::Delete implies !below(ops[a].path, ops[b].path) by {
            if b < rest.len() {
                assert(ops[a] == rest[a] && ops[b] == rest[b]);
            } else if a >= rest.len() {
                assert(ops[a] == first[a - rest.len()] && ops[b] == first[b - rest.len()]);
            } else {
                assert(ops[a] == rest[a] && ops[b] == first[b - rest.len()]);
                assert(expanded_from(missing, parent, after, rest[a].path));
                let k = choose|k: int|
                    0 <= k < after.len() && missing.contains(
                        join(parent, (#[trigger] after[k]).name),
                    ) && within(rest[a].path, join(parent, after[k].name));
                if below(ops[a].path, ops[b].path) {
                    assert(after[k] == records[k + 1] && records.first() == records[0]);
                    assert(valid_record(records[k + 1]) && valid_record(records[0]));
                    assert(records[0].name != records[k + 1].name);
                    lemma_regions_meet(
                        ops[a].path,
                        ops[b].path,
                        join(parent, records[k + 1].name),
                        root,
                    );
                    lemma_siblings_apart(parent, records[k + 1].name, records[0].name);
                    lemma_siblings_apart(parent, records[0].name, records[k + 1].name);
                }
            }
        }
    }
}

/// Each operation of the plan of one directory of the target has a source.
pub proof fn lemma_block_sources(
    reference: Seq<DirectoryView>,
    missing: Seq<Seq<char>>,
    directory: DirectoryView,
)
    ensures
        forall|a: int|
            0 <= a < directory_plan(reference, missing, directory).len() ==> source_in(
                reference,
                missing,
                directory,
                #[trigger] directory_plan(reference, missing, directory)[a],
            ),
{
    let ops = directory_plan(reference, missing, directory);
    if has_dir(reference, directory.path) {
        let known = children_of(reference, directory.path);
        let entries = entries_plan(Some(known), directory.path, directory.children);
        let expansions = missing_plan(reference, missing, directory.path, known);
        lemma_entries_from(Some(known), directory.path, directory.children);
        lemma_missing_region(reference, missing, directory.path, known);
        assert forall|a: int| 0 <= a < ops.len() implies source_in(
            reference,
            missing,
            directory,
            #[trigger] ops[a],
        ) by {
            if a < entries.len() {
                assert(ops[a] == entries[a]);
            } else {
                assert(ops[a] == expansions[a - entries.len()]);
            }
        }
    } else {
        lemma_entries_from(None, directory.path, directory.children);
    }
}

/// An operation of the plan for the directories from index `from` on has
/// its source in one of them.
pub open spec fn source_from(
    reference: Seq<DirectoryView>,
    target: Seq<DirectoryView>,
    missing: Seq<Seq<char>>,
    from: int,
    op: OperationView,
) -> bool {
    exists|j: int| from <= j < target.len() && source_in(reference, missing, #[trigger] target[j], op)
}

/// Each operation of the plan for the directories from index `from` on has
/// its source in one of them.
pub proof fn lemma_plan_sources(
    reference: Seq<DirectoryView>,
    target: Seq<DirectoryView>,
    missing: Seq<Seq<char>>,
    from: int,
)
    requires
        0 <= from <= target.len(),
    ensures
        forall|a: int|
            0 <= a < plan(reference, target.subrange(from, target.len() as int), missing).len()
                ==> source_from(
                reference,
                target,
                missing,
                from,
                #[trigger] plan(reference, target.subrange(from, target.len() as int), missing)[a],
            ),
    decreases target.len() - from,
{
    let tail = target.subrange(from, target.len() as int);
    let ops = plan(reference, tail, missing);
    if from < target.len() {
        assert(tail.drop_first() =~= target.subrange(from + 1, target.len() as int));
        assert(tail.first() == target[from]);
        let rest = plan(reference, tail.drop_first(), missing);
        let block = directory_plan(reference, missing, target[from]);
        lemma_plan_sources(reference, target, missing, from + 1);
        lemma_block_sources(reference, missing, target[from]);
        assert forall|a: int| 0 <= a < ops.len() implies source_from(
            reference,
            target,
            missing,
            from,
            #[trigger] ops[a],
        ) by {
            if a < rest.len() {
                assert(ops[a] == rest[a]);
                assert(source_from(reference, target, missing, from + 1, rest[a]));
                let j = choose|j: int|
                    from + 1 <= j < target.len() && source_in(
                        reference,
                        missing,
                        #[trigger] target[j],
                        rest[a],
                    );
                assert(source_in(reference, missing, target[j], ops[a]));
            } else {
                assert(ops[a] == block[a - rest.len()]);
                assert(source_in(reference, missing, target[from], ops[a]));
            }
        }
    }
}

/// Within the plan of one directory of the target the creates come first.
pub proof fn lemma_block_ordered(
    reference: Seq<DirectoryView>,
    target: Seq<DirectoryView>,
    missing: Seq<Seq<char>>,
    i: int,
)
    requires
        well_formed(reference),
        well_formed(target),
        on_disk(target, missing),
        0 <= i < target.len(),
    ensures
        creates_ordered(directory_plan(reference, missing, target[i])),
{
    let directory = target[i];
    let ops = directory_plan(reference, missing, directory);
    if has_dir(reference, directory.path) {
        let known = children_of(reference, directory.path);
        let entries = entries_plan(Some(known), directory.path, directory.children);
        let expansions = missing_plan(reference, missing, directory.path, known);
        lemma_known_valid(reference, directory.path);
        lemma_entries_from(Some(known), directory.path, directory.children);
        lemma_missing_region(reference, missing, directory.path, known);
        lemma_missing_ordered(reference, missing, directory.path, known);
        assert forall|a: int, b: int|
            0 <= a < b < ops.len() && (#[trigger] ops[b]).action == Action::Create && (
            #[trigger] ops[a]).action != Action::Delete implies !below(ops[a].path, ops[b].path) by {
            if b < entries.len() {
                assert(ops[b] == entries[b]);
            } else if a >= entries.len() {
                assert(ops[a] == expansions[a - entries.len()] && ops[b] == expansions[b
                    - entries.len()]);
            } else {
                assert(ops[a] == entries[a] && ops[b] == expansions[b - entries.len()]);
                if below(ops[a].path, ops[b].path) {
                    lemma_entry_not_expanded(
                        target,
                        missing,
                        i,
                        ops[a].path,
                        directory.path,
                        known,
                        ops[b].path,
                    );
                }
            }
        }
    } else {
        lemma_entries_from(None, directory.path, directory.children);
    }
}

/// An entry of the target does not lie below a path that is within an
/// expansion.
pub proof fn lemma_entry_not_expanded(
    target: Seq<DirectoryView>,
    missing: Seq<Seq<char>>,
    i: int,
    path: Seq<char>,
    parent: Seq<char>,
    records: Seq<RecordView>,
    above: Seq<char>,
)
    requires
        on_disk(target, missing),
        0 <= i < target.len(),
        names_entry(target[i].path, target[i].children, path),
        expanded_from(missing, parent, records, above),
    ensures
        !below(path, above),
{
    if below(path, above) {
        let l = choose|l: int|
            0 <= l < target[i].children.len() && path == join(
                target[i].path,
                (#[trigger] target[i].children[l]).name,
            );
        let k = choose|k: int|
            0 <= k < records.len() && missing.contains(join(parent, (#[trigger] records[k]).name))
                && within(above, join(parent, records[k].name));
        let root = join(parent, records[k].name);
        let m = choose|m: int| 0 <= m < missing.len() && missing[m] == root;
        lemma_below_within(path, above, root);
        assert(!within(join(target[i].path, target[i].children[l].name), missing[m]));
    }
}

proof fn lemma_creates_ordered_from(
    reference: Seq<DirectoryView>,
    target: Seq<DirectoryView>,
    missing: Seq<Seq<char>>,
    from: int,
)
    requires
        well_formed(reference),
        well_formed(target),
        on_disk(target, missing),
        0 <= from <= target.len(),
    ensures
        creates_ordered(plan(reference, target.subrange(from, target.len() as int), missing)),
    decreases target.len() - from,
{
    let tail = target.subrange(from, target.len() as int);
    let ops = plan(reference, tail, missing);
    if from < target.len() {
        assert(tail.drop_first() =~= target.subrange(from + 1, target.len() as int));
        assert(tail.first() == target[from]);
        let directory = target[from];
        let rest = plan(reference, tail.drop_first(), missing);
        let block = directory_plan(reference, missing, directory);
        lemma_creates_ordered_from(reference, target, missing, from + 1);
        lemma_block_ordered(reference, target, missing, from);
        lemma_plan_sources(reference, target, missing, from + 1);
        lemma_block_sources(reference, missing, directory);
        assert forall|a: int, b: int|
            0 <= a < b < ops.len() && (#[trigger] ops[b]).action == Action::Create && (
            #[trigger] ops[a]).action != Action::Delete implies !below(ops[a].path, ops[b].path) by {
            if b < rest.len() {
                assert(ops[a] == rest[a] && ops[b] == rest[b]);
            } else if a >= rest.len() {
                assert(ops[a] == block[a - rest.len()] && ops[b] == block[b - rest.len()]);
            } else {
                assert(ops[a] == rest[a] && ops[b] == block[b - rest.len()]);
                assert(source_in(reference, missing, directory, ops[b]));
                assert(source_from(reference, target, missing, from + 1, ops[a]));
                let j = choose|j: int|
                    from + 1 <= j < target.len() && source_in(
                        reference,
                        missing,
                        #[trigger] target[j],
                        ops[a],
                    );
                if below(ops[a].path, ops[b].path) {
                    lemma_sources_apart(reference, target, missing, j, from, ops[a], ops[b]);
                }
            }
        }
    }
}

/// An operation that creates, from an expansion in one directory of the
/// target, and one that does not delete, from another directory: the second
/// does not name a path below the first's.
pub proof fn lemma_sources_apart(
    reference: Seq<DirectoryView>,
    target: Seq<DirectoryView>,
    missing: Seq<Seq<char>>,
    j: int,
    i: int,
    op: OperationView,
    made: OperationView,
)
    requires
        well_formed(reference),
        well_formed(target),
        on_disk(target, missing),
        0 <= i < target.len(),
        0 <= j < target.len(),
        i != j,
        source_in(reference, missing, target[j], op),
        source_in(reference, missing, target[i], made),
        op.action != Action::Delete,
        made.action == Action::Create,
    ensures
        !below(op.path, made.path),
{
    if below(op.path, made.path) {
        let known = children_of(reference, target[i].path);
        assert(expanded_from(missing, target[i].path, known, made.path));
        if names_entry(target[j].path, target[j].children, op.path) {
            lemma_entry_not_expanded(
                target,
                missing,
                j,
                op.path,
                target[i].path,
                known,
                made.path,
            );
        } else {
            let other = children_of(reference, target[j].path);
            assert(expanded_from(missing, target[j].path, other, op.path));
            let k = choose|k: int|
                0 <= k < known.len() && missing.contains(
                    join(target[i].path, (#[trigger] known[k]).name),
                ) && within(made.path, join(target[i].path, known[k].name));
            let l = choose|l: int|
                0 <= l < other.len() && missing.contains(
                    join(target[j].path, (#[trigger] other[l]).name),
                ) && within(op.path, join(target[j].path, other[l].name));
            lemma_known_valid(reference, target[i].path);
            lemma_known_valid(reference, target[j].path);
            assert(valid_record(known[k]) && valid_record(other[l]));
            lemma_regions_meet(
                op.path,
                made.path,
                join(target[j].path, other[l].name),
                join(target[i].path, known[k].name),
            );
            lemma_roots_apart(target, missing, j, i, other[l].name, known[k].name);
            lemma_roots_apart(target, missing, i, j, known[k].name, other[l].name);
        }
    }
}

/// In the plan every create of a path comes before every create and every
/// copy of what lies below the path: carried out in order, no operation
/// finds its parent directory missing. The disk is taken to have what the
/// target's tree lists.
pub proof fn lemma_creates_come_first(
    reference: Seq<DirectoryView>,
    target: Seq<DirectoryView>,
    missing: Seq<Seq<char>>,
)
    requires
        well_formed(reference),
        well_formed(target),
        on_disk(target, missing),
    ensures
        creates_ordered(plan(reference, target, missing)),
{
    lemma_creates_ordered_from(reference, target, missing, 0);
    assert(target.subrange(0, target.len() as int) =~= target);
}

/// What the expansion of one of the records holds, the expansions of all
/// of them hold.
pub proof fn lemma_expand_all_holds(
    reference: Seq<DirectoryView>,
    parent: Seq<char>,
    records: Seq<RecordView>,
    k: int,
    op: OperationView,
)
    requires
        0 <= k < records.len(),
        expand(reference, parent, records[k]).contains(op),
    ensures
        expand_all(reference, parent, records).contains(op),
    decreases records.len(),
{
    let front = expand_all(reference, parent, records.drop_last());
    let last = expand(reference, parent, records.last());
    if k < records.len() - 1 {
        assert(records.drop_last()[k] == records[k]);
        lemma_expand_all_holds(reference, parent, records.drop_last(), k, op);
    } else {
        assert(records.last() == records[k]);
    }
    lemma_contains_add(front, last, op);
}

/// What the expansion of a record that is reported missing holds, the
/// expansions planned for its directory hold.
pub proof fn lemma_missing_holds(
    reference: Seq<DirectoryView>,
    missing: Seq<Seq<char>>,
    parent: Seq<char>,
    records: Seq<RecordView>,
    k: int,
    op: OperationView,
)
    requires
        0 <= k < records.len(),
        missing.contains(join(parent, records[k].name)),
        expand(reference, parent, records[k]).contains(op),
    ensures
        missing_plan(reference, missing, parent, records).contains(op),
    decreases records.len(),
{
    let rest = missing_plan(reference, missing, parent, records.drop_first());
    let first = if missing.contains(join(parent, records.first().name)) {
        expand(reference, parent, records.first())
    } else {
        Seq::<OperationView>::empty()
    };
    if k > 0 {
        assert(records.drop_first()[k - 1] == records[k]);
        lemma_missing_holds(reference, missing, parent, records.drop_first(), k - 1, op);
    } else {
        assert(records.first() == records[k]);
    }
    lemma_contains_add(rest, first, op);
}

/// Where the reference lists a directory that the target's disk lacks, in a
/// directory that the target has, the plan creates it, and it holds the
/// create or the copy of each of its children; each of the two paths is
/// named by that one operation and by no other of the plan; and the create
/// of the directory comes before that of the child. `i` is the index of the
/// directory in the target, `k` that of the missing directory's record
/// among the reference's records there, `c` that of the child among the
/// records that the reference has for the missing directory.
pub proof fn lemma_missing_directory_comes_first(
    reference: Seq<DirectoryView>,
    target: Seq<DirectoryView>,
    missing: Seq<Seq<char>>,
    i: int,
    k: int,
    c: int,
)
    requires
        well_formed(reference),
        well_formed(target),
        on_disk(target, missing),
        0 <= i < target.len(),
        has_dir(reference, target[i].path),
        0 <= k < children_of(reference, target[i].path).len(),
        children_of(reference, target[i].path)[k].is_dir(),
        missing.contains(join(target[i].path, children_of(reference, target[i].path)[k].name)),
        0 <= c < children_of(
            reference,
            join(target[i].path, children_of(reference, target[i].path)[k].name),
        ).len(),
    ensures
        ({
            let made = join(target[i].path, children_of(reference, target[i].path)[k].name);
            let child = children_of(reference, made)[c];
            let first = create(made);
            let second = if child.is_dir() {
                create(join(made, child.name))
            } else {
                copy(join(made, child.name))
            };
            let ops = plan(reference, target, missing);
            &&& ops.contains(first)
            &&& ops.contains(second)
            &&& occurrences(ops, made) == 1
            &&& occurrences(ops, join(made, child.name)) == 1
            &&& forall|a: int, b: int|
                0 <= a < ops.len() && 0 <= b < ops.len() && ops[a] == first && ops[b] == second
                    ==> a < b
        }),
{
    let parent = target[i].path;
    let known = children_of(reference, parent);
    let record = known[k];
    let made = join(parent, record.name);
    let at = dir_index(reference, parent);
    lemma_known_valid(reference, parent);
    assert(valid_record(record));
    assert(reference[at].children[k].is_dir());
    assert(has_dir(reference, made));
    let children = children_of(reference, made);
    let child = children[c];
    lemma_known_valid(reference, made);
    assert(valid_record(child));
    let first = create(made);
    let second = if child.is_dir() {
        create(join(made, child.name))
    } else {
        copy(join(made, child.name))
    };
    let whole = expand(reference, parent, record);
    let inner = expand_all(reference, made, children);
    let part = expand(reference, made, child);
    lemma_expand_region(reference, parent, record);
    lemma_expand_region(reference, made, child);
    assert(whole[0] == first);
    assert(part[0] == second);
    lemma_expand_all_holds(reference, made, children, c, second);
    lemma_contains_add(seq![create(made)], inner, second);
    lemma_missing_holds(reference, missing, parent, known, k, first);
    lemma_missing_holds(reference, missing, parent, known, k, second);
    let entries = entries_plan(Some(known), parent, target[i].children);
    let expansions = missing_plan(reference, missing, parent, known);
    lemma_contains_add(entries, expansions, first);
    lemma_contains_add(entries, expansions, second);
    lemma_plan_holds(reference, target, missing, i, first);
    lemma_plan_holds(reference, target, missing, i, second);
    lemma_creates_come_first(reference, target, missing);
    lemma_split_join(made, child.name);
    lemma_plan_counts_expansion(reference, target, missing, i, k, made);
    lemma_plan_counts_expansion(reference, target, missing, i, k, join(made, child.name));
    lemma_expand_names_record_once(reference, parent, record);
    lemma_expand_names_child_once(reference, parent, record, c);
    let ops = plan(reference, target, missing);
    assert forall|a: int, b: int|
        0 <= a < ops.len() && 0 <= b < ops.len() && ops[a] == first && ops[b]
            == second implies a < b by {
        if b < a {
            assert(!below(ops[b].path, ops[a].path));
        }
    }
}

} // verus!
