use vstd::prelude::*;
use vstd::string::*;
use crate::errors::{is_path_error, MikuError};
use crate::path_ops::{get_parent_dir, join_path, spec_join, spec_parent};

verus! {

// Each mutation is decided here from the target path and from what the
// caller observed on the live filesystem (whether the touched paths
// exist, and whether the target is a directory); the caller then performs
// the single corresponding filesystem action, or returns the error as it
// stands.

/// What a granted delete request removes.
#[derive(Debug, PartialEq, Eq, Structural, Clone, Copy)]
pub enum DeleteKind {
    /// The path is a directory: remove it and all its descendants.
    Directory,
    /// The path is a single file.
    File,
}

/// Decides creating an empty file named `name` under `base_path`, where
/// `target_exists` is whether `base_path/name` already exists: refused
/// exactly then, and otherwise granted with the new absolute path.
pub fn create_file(base_path: &str, name: &str, target_exists: bool) -> (r: Result<
    String,
    MikuError,
>)
    ensures
        target_exists ==> r is Err && is_path_error(r->Err_0, "File already exists"@),
        !target_exists ==> r is Ok && r->Ok_0@ == spec_join(base_path@, name@),
{
    if target_exists {
        Err(MikuError::Path(String::from_str("File already exists")))
    } else {
        Ok(join_path(base_path, name))
    }
}

/// Decides creating a directory named `name` under `base_path`, where
/// `target_exists` is whether `base_path/name` already exists: refused
/// exactly then, and otherwise granted with the new absolute path. The
/// creation is non-recursive: the base directory must already exist.
pub fn create_folder(base_path: &str, name: &str, target_exists: bool) -> (r: Result<
    String,
    MikuError,
>)
    ensures
        target_exists ==> r is Err && is_path_error(r->Err_0, "Folder already exists"@),
        !target_exists ==> r is Ok && r->Ok_0@ == spec_join(base_path@, name@),
{
    if target_exists {
        Err(MikuError::Path(String::from_str("Folder already exists")))
    } else {
        Ok(join_path(base_path, name))
    }
}

/// Decides deleting a path, where `path_exists` and `is_directory` are
/// what the caller observed of it: refused exactly when the path does not
/// exist, and otherwise granted as a recursive directory removal or a
/// single-file removal.
pub fn delete_file(path_exists: bool, is_directory: bool) -> (r: Result<DeleteKind, MikuError>)
    ensures
        !path_exists ==> r is Err && is_path_error(r->Err_0, "Path does not exist"@),
        path_exists ==> r is Ok && r->Ok_0 == if is_directory {
            DeleteKind::Directory
        } else {
            DeleteKind::File
        },
{
    if !path_exists {
        Err(MikuError::Path(String::from_str("Path does not exist")))
    } else if is_directory {
        Ok(DeleteKind::Directory)
    } else {
        Ok(DeleteKind::File)
    }
}

/// Decides renaming `old_path` to the bare name `new_name` within its own
/// directory, where `old_exists` is whether `old_path` exists and
/// `target_exists` whether its parent joined with `new_name` does.
/// Refused when the source is missing, when the source has no parent
/// directory, or when the target already exists; granted otherwise with
/// the new absolute path.
pub fn rename_file(old_path: &str, new_name: &str, old_exists: bool, target_exists: bool) -> (r:
    Result<String, MikuError>)
    ensures
        !old_exists ==> r is Err && is_path_error(r->Err_0, "Path does not exist"@),
        old_exists && spec_parent(old_path@) is None ==> r is Err && is_path_error(
            r->Err_0,
            "Cannot determine parent directory"@,
        ),
        old_exists && spec_parent(old_path@) is Some && target_exists ==> r is Err
            && is_path_error(r->Err_0, "A file with that name already exists"@),
        old_exists && spec_parent(old_path@) is Some && !target_exists ==> r is Ok && r->Ok_0@
            == spec_join(spec_parent(old_path@)->0, new_name@),
{
    if !old_exists {
        return Err(MikuError::Path(String::from_str("Path does not exist")));
    }
    match get_parent_dir(old_path) {
        None => Err(MikuError::Path(String::from_str("Cannot determine parent directory"))),
        Some(parent) => {
            if target_exists {
                Err(MikuError::Path(String::from_str("A file with that name already exists")))
            } else {
                Ok(join_path(parent.as_str(), new_name))
            }
        },
    }
}

} // verus!
