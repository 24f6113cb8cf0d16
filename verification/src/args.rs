//! The tool's configuration, as the command line fills it in.

use vstd::prelude::*;

verus! {

/// Check added changelog entries
#[derive(Debug, Clone)]
pub struct Args {
    /// path to the changelog file, relative to the git repository root
    pub changelog_path: String,
    /// diff to compare head to. defaults to origin/master
    pub diff_ref: String,
    /// relative or absolute path to the repository
    pub repo_path: String,
    /// whether to error out if any changelog addition was made to a
    /// non-unversioned section
    pub strict: bool,
}

} // verus!
