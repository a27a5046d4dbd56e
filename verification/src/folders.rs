//! The legacy folder records, kept for the folder commands of older
//! front ends.
use vstd::prelude::*;

verus! {

/// A stored folder.
#[derive(Debug)]
pub struct Folder {
    pub id: i64,
    pub name: String,
    pub parent_id: Option<i64>,
    pub created_at: String,
    pub updated_at: String,
}

/// What the front end sends to create a folder.
#[derive(Debug)]
pub struct FolderInput {
    pub name: String,
    pub parent_id: Option<i64>,
}

} // verus!
