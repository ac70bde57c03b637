//! Building the tree model from the entries of a directory walk.

use crate::digest::is_digest_text;
use crate::path::is_valid_name;
use crate::path::join_path;
use crate::tree::build;
use crate::tree::clone_record;
use crate::tree::entry_error;
use crate::tree::find_name;
use crate::tree::insert;
use crate::tree::indexes;
use crate::tree::locate;
use crate::tree::lemma_insert_well_formed;
use crate::tree::well_formed;
use crate::tree::Content;
use crate::tree::Directory;
use crate::tree::DirectoryView;
use crate::tree::Entry;
use crate::tree::EntryError;
use crate::tree::EntryView;
use crate::tree::RecordView;
use crate::tree::Tree;
use crate::tree::TreeError;
use vstd::hash_map::StringHashMap;
use vstd::prelude::*;

verus! {

/// Once an entry has failed, later entries do not change the outcome.
pub proof fn lemma_build_error_stays(entries: Seq<EntryView>, n: int)
    requires
        0 <= n <= entries.len(),
        build(entries.subrange(0, n)) is Err,
    ensures
        build(entries) == build(entries.subrange(0, n)),
    decreases entries.len() - n,
{
    if n == entries.len() {
        assert(entries.subrange(0, n) =~= entries);
    } else {
        assert(entries.drop_last().subrange(0, n) =~= entries.subrange(0, n));
        lemma_build_error_stays(entries.drop_last(), n);
    }
}

/// Puts one entry into the directories of a tree, or says why it cannot
/// join; then the directories are as they were.
fn add_entry(dirs: &mut Vec<Directory>, index: &mut StringHashMap<usize>, entry: &Entry) -> (refused:
    Option<EntryError>)
    requires
        well_formed(old(dirs).deep_view()),
        indexes(old(index)@, old(dirs).deep_view()),
    ensures
        refused == entry_error(old(dirs).deep_view(), entry@),
        refused is None ==> final(dirs).deep_view() == insert(old(dirs).deep_view(), entry@),
        refused is Some ==> final(dirs).deep_view() == old(dirs).deep_view(),
        well_formed(final(dirs).deep_view()),
        indexes(final(index)@, final(dirs).deep_view()),
{
    let ghost before = dirs.deep_view();
    if !is_valid_name(entry.record.name.as_str()) {
        return Some(EntryError::InvalidName);
    }
    let is_dir = match &entry.record.content {
        Content::Directory => true,
        Content::File { digest } => {
            if !is_digest_text(digest.as_str()) {
                return Some(EntryError::InvalidDigest);
            }
            false
        },
    };
    let at = match locate(index, dirs, entry.parent.as_str()) {
        None => {
            return Some(EntryError::UnknownParent);
        },
        Some(at) => at,
    };
    if find_name(&dirs[at].children, &entry.record.name).is_some() {
        return Some(EntryError::DuplicateName);
    }
    let record = clone_record(&entry.record);
    dirs[at].children.push(record);
    proof {
        let grown = before.update(
            at as int,
            DirectoryView {
                path: before[at as int].path,
                children: before[at as int].children.push(entry@.record),
            },
        );
        assert(dirs.deep_view() =~= grown) by {
            assert(dirs[at as int].children.deep_view() =~= before[at as int].children.push(
                entry@.record,
            ));
        }
        lemma_insert_well_formed(before, entry@);
    }
    if is_dir {
        let ghost grown = dirs.deep_view();
        let path = join_path(entry.parent.as_str(), entry.record.name.as_str());
        let place = dirs.len();
        dirs.push(Directory { path: path.clone(), children: Vec::new() });
        index.insert(path, place);
        proof {
            assert(dirs[place as int].children.deep_view() =~= Seq::<RecordView>::empty());
            assert(dirs.deep_view() =~= grown.push(dirs[place as int]@));
            let after = dirs.deep_view();
            assert forall|i: int| 0 <= i < after.len() implies index@.contains_key(
                (#[trigger] after[i]).path,
            ) && index@[after[i].path] == i by {
                if i < place {
                    assert(after[i].path == before[i].path);
                    assert(after[i].path != after[place as int].path);
                }
            }
        }
    } else {
        proof {
            let after = dirs.deep_view();
            assert forall|i: int| 0 <= i < after.len() implies index@.contains_key(
                (#[trigger] after[i]).path,
            ) && index@[after[i].path] == i by {
                assert(after[i].path == before[i].path);
            }
        }
    }
    None
}

/// Builds the tree model of a directory from the entries of a walk through
/// it, the root itself left out. Each entry must come after the directory
/// that holds it. The first entry that cannot join the tree is reported.
pub fn map_directory(entries: &Vec<Entry>) -> (result: Result<Tree, TreeError>)
    ensures
        match result {
            Ok(tree) => build(entries.deep_view()) == Ok::<Seq<DirectoryView>, TreeError>(tree@),
            Err(error) => build(entries.deep_view()) == Err::<Seq<DirectoryView>, TreeError>(
                error,
            ),
        },
        result matches Ok(tree) ==> well_formed(tree@),
{
    let (mut dirs, mut index) = Tree::new().into_parts();
    let mut i: usize = 0;
    assert(entries.deep_view().subrange(0, 0) =~= Seq::<EntryView>::empty());
    while i < entries.len()
        invariant
            i <= entries.len(),
            well_formed(dirs.deep_view()),
            indexes(index@, dirs.deep_view()),
            build(entries.deep_view().subrange(0, i as int)) == Ok::<
                Seq<DirectoryView>,
                TreeError,
            >(dirs.deep_view()),
        decreases entries.len() - i,
    {
        let ghost taken = entries.deep_view().subrange(0, i + 1);
        proof {
            assert(taken.drop_last() =~= entries.deep_view().subrange(0, i as int));
            assert(taken.last() == entries[i as int]@);
        }
        match add_entry(&mut dirs, &mut index, &entries[i]) {
            Some(reason) => {
                proof {
                    lemma_build_error_stays(entries.deep_view(), i + 1);
                }
                return Err(TreeError { index: i, reason });
            },
            None => {},
        }
        i = i + 1;
    }
    assert(entries.deep_view().subrange(0, i as int) =~= entries.deep_view());
    Ok(Tree::from_well_formed(dirs, index))
}

} // verus!
