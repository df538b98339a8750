use vstd::prelude::*;
use std::path::{Path, PathBuf};
use crate::profile::{profile_file_name, profile_file_name_text};

verus! {

/// `std::path::Path`, carried through opaque.
#[verifier::external_type_specification]
#[verifier::external_body]
pub struct ExPath(Path);

/// `std::path::PathBuf`, carried through opaque.
#[verifier::external_type_specification]
#[verifier::external_body]
pub struct ExPathBuf(PathBuf);

/// What `Path::join` gives for a base path and a relative file name: a
/// function of the two alone.
pub uninterp spec fn path_joined(base: &Path, file: Seq<char>) -> PathBuf;

/// `Path::join`, which std documents as the base path with `file` adjoined.
/// The contract claims only that its result is `path_joined` of the base and
/// the text of `file`; the shape of that path is left unsaid.
#[verifier::external_body]
fn join(base: &Path, file: &str) -> (p: PathBuf)
    ensures
        p == path_joined(base, file@),
{
    base.join(file)
}

/// Path, in `base`, of the file that holds the profile of the controller
/// `guid` (see `profile_file_name`).
pub fn profile_path(base: &Path, guid: &str) -> (p: PathBuf)
    ensures
        p == path_joined(base, profile_file_name_text(guid@)),
{
    let name = profile_file_name(guid);
    join(base, name.as_str())
}

} // verus!
