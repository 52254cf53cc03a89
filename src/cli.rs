//! The commands that the command line offers, as plain values.

use vstd::prelude::*;

verus! {

/// A parsed command line.
#[derive(Debug)]
pub struct Cli {
    pub command: Commands,
}

/// One command of the tool.
#[derive(Debug)]
#[allow(inconsistent_fields)]
pub enum Commands {
    /// Creates the metadata directory in the current directory.
    Init,
    /// Stages a file, or every file under a directory.
    Add { path: String },
    /// Records the staged files as a commit.
    Commit { message: String },
    /// Shows the first-parent history of HEAD.
    Log,
    /// Lists a tree object, or the root tree of a commit.
    LsTree { hash: String },
    /// Switches to a branch or a commit.
    Checkout { target: String },
    /// Lists branches, or creates one at HEAD's commit.
    Branch { create: Option<String> },
    /// Shows modified and untracked files.
    Status,
    /// Gets or sets a configuration key.
    Config { key: String, value: Option<String> },
    /// Unstages a path, and deletes it unless `cached`.
    Remove { path: String, cached: bool },
    /// Shows how working files differ from the staged ones.
    Diff { path: Option<String> },
    /// Merges a branch into the current one.
    Merge { branch: String },
}

} // verus!
