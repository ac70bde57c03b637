//! Plans the operations that make a target directory equal to a reference
//! directory, from content-addressed snapshots of the two trees. Nothing is
//! ever carried out: the plan is a list of creates, copies and deletes.
//!
//! A walk through a directory gives entries; [`builder::map_directory`]
//! makes the tree model of them, [`snapshot::save_state`] and
//! [`snapshot::load_state`] keep it as bytes, and [`plan::reconcile`] holds
//! the model of a target against that of a reference. The digests of file
//! contents come from [`digest::ContentHasher`]. Reading directories and
//! files is left to the caller.
//!
//! What the plan promises is proved of every input: see [`unchanged`],
//! [`mismatch`], [`deletes`], [`emptied`], [`creates`], [`once`],
//! [`parents`] and [`probing`].

pub mod path;
pub mod digest;
pub mod tree;
pub mod builder;
pub mod validate;
pub mod snapshot;
pub mod plan;
pub mod sources;
pub mod unchanged;
pub mod mismatch;
pub mod deletes;
pub mod emptied;
pub mod creates;
pub mod once;
pub mod parents;
pub mod probing;
