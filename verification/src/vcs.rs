//! The version control systems that can be run on a vault.

use vstd::prelude::*;

verus! {

/// A version control system.
#[derive(Clone, Copy, Debug, PartialEq, Eq, Structural)]
pub enum Vcs {
    Git,
    Svn,
}

impl Vcs {
    /// The program to run for this system.
    pub fn program(&self) -> (program: &'static str)
        ensures
            program@ == match self {
                Vcs::Git => "git"@,
                Vcs::Svn => "svn"@,
            },
    {
        match self {
            Vcs::Git => "git",
            Vcs::Svn => "svn",
        }
    }
}

/// What version control is to leave out of a vault: the files that exist
/// only while a task is edited.
pub fn ignored_files() -> (files: &'static str)
    ensures
        files@ == "temp.toml\ntemp.md"@,
{
    "temp.toml\ntemp.md"
}

/// The arguments with which Subversion sets what it is to leave out of a
/// vault.
pub fn svn_ignore_arguments() -> (arguments: Vec<String>)
    ensures
        arguments@.len() == 4,
        arguments@[0]@ == "propset"@,
        arguments@[1]@ == "svn:ignore"@,
        arguments@[2]@ == "temp.toml\ntemp.md"@,
        arguments@[3]@ == "."@,
{
    let mut arguments: Vec<String> = Vec::new();
    arguments.push(String::from_str("propset"));
    arguments.push(String::from_str("svn:ignore"));
    arguments.push(String::from_str(ignored_files()));
    arguments.push(String::from_str("."));
    arguments
}

} // verus!
