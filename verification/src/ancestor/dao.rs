//! The primitive operations on the ancestor store.
//!
//! Nothing here assigns meaning to file type, mode, or content.

use vstd::prelude::*;

use crate::bytes::Name;

verus! {

/// A single row in the ancestor store. This is used both as a result from
/// reading from the database as well as an input for filtering and writing.
#[derive(Debug, PartialEq, Eq)]
pub struct FileEntry {
    pub id: i64,
    pub parent: i64,
    pub name: Name,
    pub typ: i64,
    pub mode: i64,
    pub mtime: i64,
    pub content: Vec<u8>,
}

/// A row, over mathematical values.
#[verifier::ext_equal]
pub struct EntryModel {
    pub id: i64,
    pub parent: i64,
    pub name: Seq<u8>,
    pub typ: i64,
    pub mode: i64,
    pub mtime: i64,
    pub content: Seq<u8>,
}

impl View for FileEntry {
    type V = EntryModel;

    open spec fn view(&self) -> EntryModel {
        EntryModel {
            id: self.id,
            parent: self.parent,
            name: self.name@,
            typ: self.typ,
            mode: self.mode,
            mtime: self.mtime,
            content: self.content@,
        }
    }
}

/// Status code of a rename.
#[derive(Debug, Clone, Copy, PartialEq, Eq, Structural)]
pub enum RenameStatus {
    /// The rename succeeds.
    Success,
    /// The rename fails because the file to be renamed does not exist.
    SourceNotFound,
    /// The rename fails because the new name for the file is already in use by
    /// another file.
    DestExists,
}

/// Status code of an update.
#[derive(Debug, Clone, Copy, PartialEq, Eq, Structural)]
pub enum UpdateStatus {
    /// The update succeeds.
    Success,
    /// The update fails because no such file exists.
    NotFound,
    /// The update fails because, while a file with the given parent and name
    /// does exist, it does not match the expected old version.
    NotMatched,
}

/// Status code of a deletion.
#[derive(Debug, Clone, Copy, PartialEq, Eq, Structural)]
pub enum DeleteStatus {
    /// The deletion succeeds.
    Success,
    /// The deletion fails because there exist files whose `parent` equals the
    /// `id` of the file to be deleted.
    DirNotEmpty,
    /// The deletion has no effect because no file with the given parent and
    /// name exists.
    NotFound,
    /// The deletion fails because, while a file with the given parent and name
    /// does exist, it does not match the expected old version.
    NotMatched,
}

/// What comes of a rename.
pub open spec fn rename_status(old_exists: bool, new_exists: bool) -> RenameStatus {
    match (old_exists, new_exists) {
        (true, false) => RenameStatus::Success,
        (true, true) => RenameStatus::DestExists,
        (false, _) => RenameStatus::SourceNotFound,
    }
}

/// Decides on a rename, by whether there are files of the old and of the new
/// name.
pub fn rename(old_exists: bool, new_exists: bool) -> (r: RenameStatus)
    ensures
        r == if !old_exists {
            RenameStatus::SourceNotFound
        } else if new_exists {
            RenameStatus::DestExists
        } else {
            RenameStatus::Success
        },
        r == rename_status(old_exists, new_exists),
{
    if !old_exists {
        RenameStatus::SourceNotFound
    } else if new_exists {
        RenameStatus::DestExists
    } else {
        RenameStatus::Success
    }
}

/// What comes of an update.
pub open spec fn update_status(matches: bool, present: bool) -> UpdateStatus {
    match (matches, present) {
        (true, _) => UpdateStatus::Success,
        (false, true) => UpdateStatus::NotMatched,
        (false, false) => UpdateStatus::NotFound,
    }
}

/// Decides on an update, by the id of a matching file, if there is one, and
/// whether there is a file of that name at all.
pub fn update(matching: Option<i64>, present: bool) -> (r: UpdateStatus)
    ensures
        r == if matching is Some {
            UpdateStatus::Success
        } else if present {
            UpdateStatus::NotMatched
        } else {
            UpdateStatus::NotFound
        },
        r == update_status(matching is Some, present),
{
    if matching.is_some() {
        UpdateStatus::Success
    } else if present {
        UpdateStatus::NotMatched
    } else {
        UpdateStatus::NotFound
    }
}

/// Decides on the deletion of a file directly by its id. If there is no such
/// file, the deletion silently succeeds.
pub fn delete_raw(has_children: bool) -> (r: DeleteStatus)
    ensures
        r == if has_children {
            DeleteStatus::DirNotEmpty
        } else {
            DeleteStatus::Success
        },
{
    if has_children {
        DeleteStatus::DirNotEmpty
    } else {
        DeleteStatus::Success
    }
}

/// What comes of a deletion.
pub open spec fn delete_status(matches: bool, has_children: bool, present: bool) -> DeleteStatus {
    match (matches, has_children, present) {
        (true, false, _) => DeleteStatus::Success,
        (true, true, _) => DeleteStatus::DirNotEmpty,
        (false, _, true) => DeleteStatus::NotMatched,
        (false, _, false) => DeleteStatus::NotFound,
    }
}

/// Decides on the deletion of a file, by the id of a matching file, if there is
/// one, whether that has children, and whether there is a file of that name at
/// all.
pub fn delete(matching: Option<i64>, has_children: bool, present: bool) -> (r: DeleteStatus)
    ensures
        r == if matching is Some {
            if has_children {
                DeleteStatus::DirNotEmpty
            } else {
                DeleteStatus::Success
            }
        } else if present {
            DeleteStatus::NotMatched
        } else {
            DeleteStatus::NotFound
        },
        r == delete_status(matching is Some, has_children, present),
{
    if matching.is_some() {
        delete_raw(has_children)
    } else if present {
        DeleteStatus::NotMatched
    } else {
        DeleteStatus::NotFound
    }
}

/// Nothing is renamed over another file, and what does not exist is not renamed. All
/// else is.
pub proof fn law_rename(old_exists: bool, new_exists: bool)
    ensures
        rename_status(old_exists, new_exists) is Success <==> old_exists && !new_exists,
        rename_status(old_exists, new_exists) is SourceNotFound <==> !old_exists,
{
}

/// A file is updated or deleted exactly if it is the expected one, and in the case of
/// a directory that is to be deleted, if it is empty. Whether there is another file
/// instead is told.
pub proof fn law_expected(matches: bool, has_children: bool, present: bool)
    ensures
        update_status(matches, present) is Success <==> matches,
        update_status(matches, present) is NotMatched <==> !matches && present,
        delete_status(matches, has_children, present) is Success <==> matches && !has_children,
        delete_status(matches, has_children, present) is DirNotEmpty <==> matches && has_children,
        delete_status(matches, has_children, present) is NotMatched <==> update_status(
            matches,
            present,
        ) is NotMatched,
        delete_status(matches, has_children, present) is NotFound <==> update_status(
            matches,
            present,
        ) is NotFound,
{
}

} // verus!
