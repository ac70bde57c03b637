//! The plan asks about the disk only at the probed paths.

use crate::path::join;
use crate::plan::missing_plan;
use crate::plan::plan;
use crate::plan::probes;
use crate::sources::lemma_contains_add;
use crate::tree::children_of;
use crate::tree::has_dir;
use crate::tree::DirectoryView;
use crate::tree::RecordView;
use vstd::prelude::*;

verus! {

/// The probes hold the path of each record that the reference lists in a
/// directory that the target has too.
pub proof fn lemma_probes_hold(
    reference: Seq<DirectoryView>,
    target: Seq<DirectoryView>,
    j: int,
    k: int,
)
    requires
        0 <= j < target.len(),
        has_dir(reference, target[j].path),
        0 <= k < children_of(reference, target[j].path).len(),
    ensures
        probes(reference, target).contains(
            join(target[j].path, children_of(reference, target[j].path)[k].name),
        ),
    decreases target.len(),
{
    let path = join(target[j].path, children_of(reference, target[j].path)[k].name);
    let last = target.last();
    let front = probes(reference, target.drop_last());
    let part = if has_dir(reference, last.path) {
        children_of(reference, last.path).map_values(
            |record: RecordView| join(last.path, record.name),
        )
    } else {
        Seq::<Seq<char>>::empty()
    };
    if j < target.len() - 1 {
        assert(target.drop_last()[j] == target[j]);
        lemma_probes_hold(reference, target.drop_last(), j, k);
    } else {
        assert(part[k] == path);
    }
    lemma_contains_add(front, part, path);
}

/// Two reports that agree on the paths of the records give the same
/// expansions.
pub proof fn lemma_missing_plan_agrees(
    reference: Seq<DirectoryView>,
    first: Seq<Seq<char>>,
    second: Seq<Seq<char>>,
    parent: Seq<char>,
    records: Seq<RecordView>,
)
    requires
        forall|k: int|
            0 <= k < records.len() ==> first.contains(join(parent, (#[trigger] records[k]).name))
                == second.contains(join(parent, records[k].name)),
    ensures
        missing_plan(reference, first, parent, records) == missing_plan(
            reference,
            second,
            parent,
            records,
        ),
    decreases records.len(),
{
    if records.len() > 0 {
        let rest = records.drop_first();
        assert forall|k: int| 0 <= k < rest.len() implies first.contains(
            join(parent, (#[trigger] rest[k]).name),
        ) == second.contains(join(parent, rest[k].name)) by {
            assert(rest[k] == records[k + 1]);
        }
        lemma_missing_plan_agrees(reference, first, second, parent, rest);
        assert(records.first() == records[0]);
    }
}

proof fn lemma_plan_agrees_from(
    reference: Seq<DirectoryView>,
    target: Seq<DirectoryView>,
    first: Seq<Seq<char>>,
    second: Seq<Seq<char>>,
    from: int,
)
    requires
        0 <= from <= target.len(),
        forall|path: Seq<char>| #[trigger]
            probes(reference, target).contains(path) ==> first.contains(path) == second.contains(
                path,
            ),
    ensures
        plan(reference, target.subrange(from, target.len() as int), first) == plan(
            reference,
            target.subrange(from, target.len() as int),
            second,
        ),
    decreases target.len() - from,
{
    if from < target.len() {
        let tail = target.subrange(from, target.len() as int);
        let directory = target[from];
        assert(tail.drop_first() =~= target.subrange(from + 1, target.len() as int));
        assert(tail.first() == directory);
        lemma_plan_agrees_from(reference, target, first, second, from + 1);
        if has_dir(reference, directory.path) {
            let known = children_of(reference, directory.path);
            assert forall|k: int| 0 <= k < known.len() implies first.contains(
                join(directory.path, (#[trigger] known[k]).name),
            ) == second.contains(join(directory.path, known[k].name)) by {
                lemma_probes_hold(reference, target, from, k);
            }
            lemma_missing_plan_agrees(reference, first, second, directory.path, known);
        }
    }
}

/// Two reports of what the disk lacks that agree on every probed path give
/// the same plan: the plan reads the disk at the probes and nowhere else.
pub proof fn lemma_plan_reads_probes(
    reference: Seq<DirectoryView>,
    target: Seq<DirectoryView>,
    first: Seq<Seq<char>>,
    second: Seq<Seq<char>>,
)
    requires
        forall|path: Seq<char>| #[trigger]
            probes(reference, target).contains(path) ==> first.contains(path) == second.contains(
                path,
            ),
    ensures
        plan(reference, target, first) == plan(reference, target, second),
{
    lemma_plan_agrees_from(reference, target, first, second, 0);
    assert(target.subrange(0, target.len() as int) =~= target);
}

} // verus!
