use vstd::prelude::*;

use crate::models::PathStatus;
use crate::paths::{parent_of, spec_parent};

verus! {

/// The directory whose images are listed beside the image at `current_path`;
/// an error message where the path has no parent.
pub fn adjacent_directory(current_path: &str) -> (r: Result<&str, String>)
    ensures
        r matches Ok(d) ==> spec_parent(current_path@) == Some(d@),
        r is Err <==> spec_parent(current_path@) is None,
        r matches Err(m) ==> m@ == "Could not get parent directory"@,
{
    match parent_of(current_path) {
        Some(d) => Ok(d),
        None => Err("Could not get parent directory".to_owned()),
    }
}

/// Whether a folder may be scanned: it must exist and be a directory. The
/// error is the message shown to the user.
pub fn check_scan_folder(status: PathStatus) -> (r: Result<(), String>)
    ensures
        status == PathStatus::Directory <==> r is Ok,
        status == PathStatus::Missing ==> (r matches Err(m) && m@ == "Directory does not exist"@),
        status == PathStatus::NotDirectory ==> (r matches Err(m) && m@ == "Path is not a directory"@),
{
    match status {
        PathStatus::Missing => Err("Directory does not exist".to_owned()),
        PathStatus::NotDirectory => Err("Path is not a directory".to_owned()),
        PathStatus::Directory => Ok(()),
    }
}

} // verus!
