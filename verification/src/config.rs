use vstd::prelude::*;
use vstd::string::*;

verus! {

/// The branch that a deployment targets when the configuration names none.
pub fn default_branch() -> (s: String)
    ensures
        s@ == "dev"@,
{
    String::from_str("dev")
}

/// The message of the empty commit when the configuration names none.
pub fn default_commit_message() -> (s: String)
    ensures
        s@ == "Force deploy of dev"@,
{
    String::from_str("Force deploy of dev")
}

/// One repository of a deployment group.
///
/// `delta_ms` is the time, in milliseconds, that must pass after this
/// repository's group starts before the next group may start.
pub struct Repository {
    pub path: String,
    pub delta_ms: u64,
    pub dry: bool,
}

/// Repositories that are deployed in parallel.
pub struct Group {
    pub repositories: Vec<Repository>,
}

/// The whole deployment configuration.
pub struct Config {
    pub groups: Vec<Group>,
    pub root_path: Option<String>,
    pub branch: String,
    pub commit_message: String,
}

} // verus!

verus! {

impl Config {
    /// The directory that holds the repositories: the configured root path,
    /// or the parent directory when none is configured.
    pub fn root_path_or_default(&self) -> (root: String)
        ensures
            root@ == (match self.root_path {
                Some(p) => p@,
                None => ".."@,
            }),
    {
        match &self.root_path {
            Some(p) => p.clone(),
            None => String::from_str(".."),
        }
    }
}

} // verus!
