//! Deletion decisions: the classified result of a delete request and the
//! checks that precede any destructive call.
use crate::model::spec_is_protected;
use crate::model::DirEntry;
use vstd::prelude::*;

verus! {

/// Result of a delete operation.
#[derive(Debug)]
pub enum DeleteResult {
    Success,
    ProtectedPath,
    NotFound,
    PermissionDenied(String),
    Error(String),
}

/// The decision taken before anything is removed: a protected path is
/// refused outright, a path that does not exist on disk reports not-found,
/// and anything else may proceed to the actual removal.
pub fn delete_precheck(path: &String, exists: bool) -> (r: Option<DeleteResult>)
    ensures
        match r {
            Some(d) => (spec_is_protected(path@) && d is ProtectedPath) || (!spec_is_protected(
                path@,
            ) && !exists && d is NotFound),
            None => !spec_is_protected(path@) && exists,
        },
{
    if crate::model::is_protected_path(path) {
        Some(DeleteResult::ProtectedPath)
    } else if !exists {
        Some(DeleteResult::NotFound)
    } else {
        None
    }
}

/// Get info about what will be deleted: its item count and subtree total.
pub fn get_delete_info(entry: &DirEntry) -> (r: (usize, u64))
    requires
        entry@.item_count() <= usize::MAX,
        entry@.total_size() <= u64::MAX,
    ensures
        r.0 as int == entry@.item_count(),
        r.1 as int == entry@.total_size(),
{
    let count = entry.item_count();
    let size = entry.total_size();
    (count, size)
}

} // verus!
