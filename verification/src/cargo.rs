//! Where a project keeps its test cases and its solvers, below its root.
//!
//! Paths are texts in which `/` separates the names. Looking into the
//! directories is the caller's part; what the search makes of what it finds
//! is decided here.

use vstd::prelude::*;
use vstd::string::*;

verus! {

/// `part` below `base`. A `part` that begins at the root of the file system
/// stands for itself; else it follows `base`, with a `/` between them unless
/// `base` is empty or ends with one.
pub open spec fn joined(base: Seq<char>, part: Seq<char>) -> Seq<char> {
    if part.len() > 0 && part[0] == '/' {
        part
    } else if base.len() == 0 || base.last() == '/' {
        base + part
    } else {
        base + seq!['/'] + part
    }
}

/// What the search for the root of a project does at a directory.
#[derive(Clone, Copy, Debug, PartialEq, Eq, Structural)]
pub enum Search {
    /// The directory is the root.
    Found,
    /// The search goes on in the directory above.
    Ascend,
    /// There is no project: the search has come to the top.
    NotFound,
}

/// Decides how the search goes on at a directory: the first directory that
/// holds the manifest of a project is its root; from any other the search
/// goes up, and it fails where nothing lies above.
pub fn root_step(has_manifest: bool, has_parent: bool) -> (r: Search)
    ensures
        r == (if has_manifest {
            Search::Found
        } else if has_parent {
            Search::Ascend
        } else {
            Search::NotFound
        }),
{
    if has_manifest {
        Search::Found
    } else if has_parent {
        Search::Ascend
    } else {
        Search::NotFound
    }
}

/// Puts `part` below `base`.
fn join(base: &str, part: &str) -> (r: String)
    ensures
        r@ == joined(base@, part@),
{
    let part_len = part.unicode_len();
    if part_len > 0 && part.get_char(0) == '/' {
        return part.to_owned();
    }
    let base_len = base.unicode_len();
    let mut path = base.to_owned();
    if base_len > 0 && base.get_char(base_len - 1) != '/' {
        proof {
            reveal_strlit("/");
        }
        path.append("/");
        assert("/"@ =~= seq!['/']);
    }
    path.append(part);
    path
}

/// The place of the test cases of `problem` in the project at `root`.
pub fn cases_path(root: &str, problem: &str) -> (path: String)
    ensures
        path@ == joined(root@, problem@),
{
    join(root, problem)
}

/// The place of the solver of `problem` that a release build of the project
/// at `root` leaves.
pub fn target_path(root: &str, problem: &str) -> (path: String)
    ensures
        path@ == joined(joined(joined(root@, "target"@), "release"@), problem@),
{
    let target = join(root, "target");
    let release = join(target.as_str(), "release");
    join(release.as_str(), problem)
}

} // verus!
