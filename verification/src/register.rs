//! Registering a repository.
//!
//! Fetching a repository is somebody else's work. What is decided here is
//! whether an address names a repository at all, where the repository goes on
//! disk, and what there is to say and to undo once the fetch has ended.

use vstd::prelude::*;
use vstd::string::StringExecFns;
use crate::identity::{parse_text, Project, ProjectView};
use crate::path::{join, joined, rooted};
use crate::relative::project_root;

verus! {

/// What is to be done about a request to register a repository.
#[derive(Debug)]
pub enum Registration {
    /// The address names no repository. Nothing is to be fetched.
    Invalid,
    /// The repository `project` is to be fetched into the directory `target`,
    /// which is to be created first.
    Fetch { project: Project, target: String },
}

/// How a request to register a repository ended.
#[derive(Clone, Copy, PartialEq, Eq, Debug)]
pub enum Outcome {
    /// The address named no repository.
    Invalid,
    /// The repository was fetched.
    Cloned,
    /// The repository could not be fetched.
    Failed,
}

/// The directory that the repository `project` is fetched into, below the
/// resource directory `resources`.
pub open spec fn target_dir(resources: Seq<char>, project: ProjectView) -> Seq<char> {
    join(resources, project.owner + seq!['/'] + project.name)
}

/// What the outcome `outcome` is answered with.
pub open spec fn reply_text(outcome: Outcome) -> Seq<char> {
    match outcome {
        Outcome::Invalid => "Invalid URL"@,
        Outcome::Cloned => "Repository is cloned."@,
        Outcome::Failed => "Failed to clone repo"@,
    }
}

/// A repository is fetched into its own directory, provided that its owner is
/// a plain name and its name does not start at the root.
pub proof fn lemma_target_is_root(resources: Seq<char>, project: ProjectView)
    requires
        project.owner.len() > 0,
        project.owner.first() != '/',
        project.owner.last() != '/',
        !rooted(project.name),
    ensures
        target_dir(resources, project) == project_root(resources, project),
{
    let below = project.owner + seq!['/'] + project.name;
    assert(below[0] == project.owner[0]);
    let owner_dir = join(resources, project.owner);
    assert(owner_dir.last() == project.owner.last());
    assert(target_dir(resources, project) =~= project_root(resources, project));
}

/// Decides about the request to register the repository at `url`, with
/// `resources` as the resource directory.
pub fn register(url: &String, resources: &str) -> (r: Registration)
    ensures
        match parse_text(url@) {
            Some(v) => r matches Registration::Fetch { project, target } && project@ == v
                && target@ == target_dir(resources@, v),
            None => r is Invalid,
        },
{
    match Project::parse(url) {
        Some(project) => {
            let mut below = project.owner.clone();
            below.push('/');
            below.append(project.name.as_str());
            let target = joined(resources, below.as_str());
            Registration::Fetch { project, target }
        },
        None => Registration::Invalid,
    }
}

impl Registration {
    /// How the request ended, given whether the fetch succeeded. The fetch
    /// does not matter where nothing was to be fetched.
    pub fn settle(&self, fetched: bool) -> (r: Outcome)
        ensures
            r == match self {
                Registration::Invalid => Outcome::Invalid,
                Registration::Fetch { .. } => if fetched {
                    Outcome::Cloned
                } else {
                    Outcome::Failed
                },
            },
    {
        match self {
            Registration::Invalid => Outcome::Invalid,
            Registration::Fetch { .. } => if fetched {
                Outcome::Cloned
            } else {
                Outcome::Failed
            },
        }
    }
}

impl Outcome {
    /// What the request is answered with.
    pub fn reply(&self) -> (r: &'static str)
        ensures
            r@ == reply_text(*self),
    {
        match self {
            Outcome::Invalid => "Invalid URL",
            Outcome::Cloned => "Repository is cloned.",
            Outcome::Failed => "Failed to clone repo",
        }
    }

    /// Whether the target directory is to be removed again: it is after a
    /// fetch that failed.
    pub fn removes_target(&self) -> (r: bool)
        ensures
            r == (*self == Outcome::Failed),
    {
        match self {
            Outcome::Failed => true,
            _ => false,
        }
    }
}

} // verus!
