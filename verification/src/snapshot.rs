//! Snapshots: a tree model as an opaque run of bytes, and back.
//!
//! On the wire a tree is the list of its directories, each a path with the
//! list of its records, each a name with the digest if it is a file. bincode
//! turns that list into bytes and bytes into such a list. What is read is
//! checked before it is taken for a tree, and what is written is read back
//! before it is handed out.

use crate::builder::map_directory;
use crate::tree::build;
use crate::tree::well_formed;
use crate::tree::Content;
use crate::tree::Directory;
use crate::tree::DirectoryView;
use crate::tree::Entry;
use crate::tree::Record;
use crate::tree::RecordView;
use crate::tree::Tree;
use crate::tree::TreeError;
use vstd::prelude::*;
use vstd::string::StringExecFns;

verus! {

/// `bincode::ErrorKind`, what bincode's errors box. Nothing inside it is
/// seen; it is carried to [`describe`] and no further.
#[verifier::external_type_specification]
#[verifier::external_body]
pub struct ExErrorKind(bincode::ErrorKind);

/// The bytes that bincode writes for a list of directories.
pub uninterp spec fn encoded(
    wire: Seq<(Seq<char>, Seq<(Seq<char>, Option<Seq<char>>)>)>,
) -> Seq<u8>;

/// The list of directories that bincode reads from `bytes`, if it reads one.
pub uninterp spec fn decoded(bytes: Seq<u8>) -> Option<
    Seq<(Seq<char>, Seq<(Seq<char>, Option<Seq<char>>)>)>,
>;

/// `bincode::serialize` on a list of directories. Bytes always come, and
/// they depend on the list alone: the call sets no size limit, every
/// sequence of the list knows its length, text and options do not fail, and
/// the bytes go to a `Vec`, which takes all that is written. That the bytes
/// read back as the list is not taken on trust: [`to_bytes`] reads them
/// back.
#[verifier::external_body]
fn bincode_serialize(wire: &Vec<(String, Vec<(String, Option<String>)>)>) -> (result: Result<
    Vec<u8>,
    Box<bincode::ErrorKind>,
>)
    ensures
        result is Ok,
        result matches Ok(bytes) ==> bytes@ == encoded(wire.deep_view()),
{
    bincode::serialize(wire)
}

/// `bincode::deserialize` to a list of directories: what it reads depends
/// on the bytes alone, and it fails where they hold no such list.
#[verifier::external_body]
fn bincode_deserialize(bytes: &[u8]) -> (result: Result<
    Vec<(String, Vec<(String, Option<String>)>)>,
    Box<bincode::ErrorKind>,
>)
    ensures
        match result {
            Ok(wire) => decoded(bytes@) == Some(wire.deep_view()),
            Err(_) => decoded(bytes@) is None,
        },
{
    bincode::deserialize(bytes)
}

/// The message of a bincode error, by its `Display`.
#[verifier::external_body]
fn describe(error: &bincode::ErrorKind) -> (text: String) {
    format!("{}", error)
}

/// A record on the wire.
pub open spec fn record_wire(record: RecordView) -> (Seq<char>, Option<Seq<char>>) {
    (record.name, record.digest)
}

/// The records of one directory on the wire.
pub open spec fn records_wire(children: Seq<RecordView>) -> Seq<(Seq<char>, Option<Seq<char>>)> {
    Seq::new(children.len(), |k: int| record_wire(children[k]))
}

/// A tree on the wire.
pub open spec fn wire_of(tree: Seq<DirectoryView>) -> Seq<
    (Seq<char>, Seq<(Seq<char>, Option<Seq<char>>)>),
> {
    Seq::new(tree.len(), |i: int| (tree[i].path, records_wire(tree[i].children)))
}

/// The records that a list on the wire stands for.
pub open spec fn records_of(wire: Seq<(Seq<char>, Option<Seq<char>>)>) -> Seq<RecordView> {
    Seq::new(wire.len(), |k: int| RecordView { name: wire[k].0, digest: wire[k].1 })
}

/// The directories that a list on the wire stands for.
pub open spec fn tree_of(wire: Seq<(Seq<char>, Seq<(Seq<char>, Option<Seq<char>>)>)>) -> Seq<
    DirectoryView,
> {
    Seq::new(wire.len(), |i: int| DirectoryView { path: wire[i].0, children: records_of(wire[i].1) })
}

/// The tree that `bytes` hold: what they decode to, if that is well formed.
pub open spec fn restored(bytes: Seq<u8>) -> Option<Seq<DirectoryView>> {
    match decoded(bytes) {
        Some(wire) => if well_formed(tree_of(wire)) {
            Some(tree_of(wire))
        } else {
            None
        },
        None => None,
    }
}

/// Going to the wire and back changes nothing.
pub proof fn lemma_wire_round_trip(tree: Seq<DirectoryView>)
    ensures
        tree_of(wire_of(tree)) == tree,
{
    let back = tree_of(wire_of(tree));
    assert forall|i: int| 0 <= i < tree.len() implies back[i] == tree[i] by {
        assert(back[i].children =~= tree[i].children);
    }
    assert(back =~= tree);
}

/// Bytes that decode to the wire form of a well-formed tree hold that tree.
pub proof fn lemma_restored_round_trip(tree: Seq<DirectoryView>, bytes: Seq<u8>)
    requires
        well_formed(tree),
        decoded(bytes) == Some(wire_of(tree)),
    ensures
        restored(bytes) == Some(tree),
{
    lemma_wire_round_trip(tree);
}

/// Why a snapshot could not be written or read.
#[derive(Clone, Debug, PartialEq, Eq)]
pub enum StateError {
    /// An entry of the walk could not join the tree.
    Tree(TreeError),
    /// The bytes written for the tree do not read back as the tree.
    Encoding { cause: String },
    /// The bytes hold no list of directories.
    Decoding { cause: String },
    /// The bytes hold directories that make no well-formed tree.
    Malformed,
}

fn records_to_wire(children: &Vec<Record>) -> (wire: Vec<(String, Option<String>)>)
    ensures
        wire.deep_view() == records_wire(children.deep_view()),
{
    let mut wire: Vec<(String, Option<String>)> = Vec::new();
    let mut k: usize = 0;
    while k < children.len()
        invariant
            k <= children.len(),
            wire.len() == k,
            forall|l: int| 0 <= l < k ==> (#[trigger] wire[l]).deep_view() == record_wire(children[l]@),
        decreases children.len() - k,
    {
        let record = &children[k];
        let digest = match &record.content {
            Content::Directory => None,
            Content::File { digest } => Some(digest.clone()),
        };
        wire.push((record.name.clone(), digest));
        k = k + 1;
    }
    assert(wire.deep_view() =~= records_wire(children.deep_view()));
    wire
}

fn to_wire(dirs: &Vec<Directory>) -> (wire: Vec<(String, Vec<(String, Option<String>)>)>)
    ensures
        wire.deep_view() == wire_of(dirs.deep_view()),
{
    let mut wire: Vec<(String, Vec<(String, Option<String>)>)> = Vec::new();
    let mut i: usize = 0;
    while i < dirs.len()
        invariant
            i <= dirs.len(),
            wire.len() == i,
            forall|j: int|
                0 <= j < i ==> (#[trigger] wire[j]).deep_view() == (
                    dirs[j].path@,
                    records_wire(dirs[j].children.deep_view()),
                ),
        decreases dirs.len() - i,
    {
        let records = records_to_wire(&dirs[i].children);
        wire.push((dirs[i].path.clone(), records));
        i = i + 1;
    }
    assert(wire.deep_view() =~= wire_of(dirs.deep_view()));
    wire
}

fn records_from_wire(wire: &Vec<(String, Option<String>)>) -> (children: Vec<Record>)
    ensures
        children.deep_view() == records_of(wire.deep_view()),
{
    let mut children: Vec<Record> = Vec::new();
    let mut k: usize = 0;
    while k < wire.len()
        invariant
            k <= wire.len(),
            children.len() == k,
            forall|l: int|
                0 <= l < k ==> (#[trigger] children[l])@ == (RecordView {
                    name: wire[l].0@,
                    digest: wire[l].1.deep_view(),
                }),
        decreases wire.len() - k,
    {
        let content = match &wire[k].1 {
            None => Content::Directory,
            Some(digest) => Content::File { digest: digest.clone() },
        };
        children.push(Record { name: wire[k].0.clone(), content });
        k = k + 1;
    }
    assert(children.deep_view() =~= records_of(wire.deep_view()));
    children
}

fn from_wire(wire: &Vec<(String, Vec<(String, Option<String>)>)>) -> (dirs: Vec<Directory>)
    ensures
        dirs.deep_view() == tree_of(wire.deep_view()),
{
    let mut dirs: Vec<Directory> = Vec::new();
    let mut i: usize = 0;
    while i < wire.len()
        invariant
            i <= wire.len(),
            dirs.len() == i,
            forall|j: int|
                0 <= j < i ==> (#[trigger] dirs[j])@ == (DirectoryView {
                    path: wire[j].0@,
                    children: records_of(wire[j].1.deep_view()),
                }),
        decreases wire.len() - i,
    {
        let children = records_from_wire(&wire[i].1);
        dirs.push(Directory { path: wire[i].0.clone(), children });
        i = i + 1;
    }
    assert(dirs.deep_view() =~= tree_of(wire.deep_view()));
    dirs
}

fn same_records(first: &Vec<(String, Option<String>)>, second: &Vec<(String, Option<String>)>) -> (same:
    bool)
    ensures
        same == (first.deep_view() == second.deep_view()),
{
    if first.len() != second.len() {
        assert(first.deep_view().len() != second.deep_view().len());
        return false;
    }
    let mut k: usize = 0;
    while k < first.len()
        invariant
            k <= first.len(),
            first.len() == second.len(),
            forall|l: int| 0 <= l < k ==> first.deep_view()[l] == second.deep_view()[l],
        decreases first.len() - k,
    {
        let same_digest = match &first[k].1 {
            None => second[k].1.is_none(),
            Some(digest) => match &second[k].1 {
                None => false,
                Some(other) => *digest == *other,
            },
        };
        if first[k].0 != second[k].0 || !same_digest {
            assert(first.deep_view()[k as int] != second.deep_view()[k as int]);
            return false;
        }
        k = k + 1;
    }
    assert(first.deep_view() =~= second.deep_view());
    true
}

fn same_wire(
    first: &Vec<(String, Vec<(String, Option<String>)>)>,
    second: &Vec<(String, Vec<(String, Option<String>)>)>,
) -> (same: bool)
    ensures
        same == (first.deep_view() == second.deep_view()),
{
    if first.len() != second.len() {
        assert(first.deep_view().len() != second.deep_view().len());
        return false;
    }
    let mut i: usize = 0;
    while i < first.len()
        invariant
            i <= first.len(),
            first.len() == second.len(),
            forall|j: int| 0 <= j < i ==> first.deep_view()[j] == second.deep_view()[j],
        decreases first.len() - i,
    {
        if first[i].0 != second[i].0 || !same_records(&first[i].1, &second[i].1) {
            assert(first.deep_view()[i as int] != second.deep_view()[i as int]);
            return false;
        }
        i = i + 1;
    }
    assert(first.deep_view() =~= second.deep_view());
    true
}

/// The tree as the bytes of a snapshot. The bytes are read back before they
/// are handed out: they come exactly when they read back as the tree, and
/// then [`load_state`] gives the tree back.
pub fn to_bytes(tree: &Tree) -> (result: Result<Vec<u8>, StateError>)
    ensures
        result is Ok <==> decoded(encoded(wire_of(tree@))) == Some(wire_of(tree@)),
        match result {
            Ok(bytes) => bytes@ == encoded(wire_of(tree@)) && restored(bytes@) == Some(tree@),
            Err(error) => error is Encoding,
        },
{
    let wire = to_wire(tree.directories());
    let bytes = match bincode_serialize(&wire) {
        Ok(bytes) => bytes,
        Err(error) => {
            return Err(StateError::Encoding { cause: describe(&error) });
        },
    };
    match bincode_deserialize(bytes.as_slice()) {
        Err(error) => Err(StateError::Encoding { cause: describe(&error) }),
        Ok(back) => {
            if same_wire(&wire, &back) {
                proof {
                    lemma_restored_round_trip(tree@, bytes@);
                }
                Ok(bytes)
            } else {
                Err(
                    StateError::Encoding {
                        cause: String::from_str("the bytes do not read back as the tree"),
                    },
                )
            }
        },
    }
}

/// Reads the tree that the bytes of a snapshot hold.
pub fn load_state(bytes: &[u8]) -> (result: Result<Tree, StateError>)
    ensures
        match result {
            Ok(tree) => restored(bytes@) == Some(tree@),
            Err(StateError::Decoding { .. }) => decoded(bytes@) is None,
            Err(StateError::Malformed) => decoded(bytes@) is Some && restored(bytes@) is None,
            Err(_) => false,
        },
{
    match bincode_deserialize(bytes) {
        Err(error) => Err(StateError::Decoding { cause: describe(&error) }),
        Ok(wire) => match Tree::from_directories(from_wire(&wire)) {
            Some(tree) => Ok(tree),
            None => Err(StateError::Malformed),
        },
    }
}

/// Builds the tree of a reference directory from the entries of a walk
/// through it, as [`map_directory`] does, and gives it as the bytes of a
/// snapshot, as [`to_bytes`] does: where the walk makes a tree, bytes come
/// exactly when they read back as that tree.
pub fn save_state(entries: &Vec<Entry>) -> (result: Result<Vec<u8>, StateError>)
    ensures
        match build(entries.deep_view()) {
            Err(refused) => result == Err::<Vec<u8>, StateError>(StateError::Tree(refused)),
            Ok(tree) => {
                &&& result is Ok <==> decoded(encoded(wire_of(tree))) == Some(wire_of(tree))
                &&& match result {
                    Ok(bytes) => bytes@ == encoded(wire_of(tree)) && restored(bytes@) == Some(
                        tree,
                    ),
                    Err(error) => error is Encoding,
                }
            },
        },
{
    match map_directory(entries) {
        Err(refused) => Err(StateError::Tree(refused)),
        Ok(tree) => to_bytes(&tree),
    }
}

} // verus!
