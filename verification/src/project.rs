//! Project representation.

use crate::text::clone_texts;
#[allow(unused_imports)]
use crate::text::texts;
use vstd::prelude::*;

verus! {

/// A terragrunt project with its dependencies and watch files.
#[derive(Debug, PartialEq, Eq)]
pub struct Project {
    /// Project name (derived from path)
    pub name: String,
    /// Directory containing terragrunt.hcl
    pub dir: String,
    /// Other projects this depends on
    pub project_dependencies: Vec<String>,
    /// Files/directories to watch for changes
    pub watch_files: Vec<String>,
    /// Whether the configuration has a `terraform` block with a source
    pub has_terraform_source: bool,
}

/// What a project holds.
#[verifier::ext_equal]
pub struct ProjectView {
    pub name: Seq<char>,
    pub dir: Seq<char>,
    pub project_dependencies: Seq<Seq<char>>,
    pub watch_files: Seq<Seq<char>>,
    pub has_terraform_source: bool,
}

impl View for Project {
    type V = ProjectView;

    open spec fn view(&self) -> ProjectView {
        ProjectView {
            name: self.name@,
            dir: self.dir@,
            project_dependencies: texts(self.project_dependencies@),
            watch_files: texts(self.watch_files@),
            has_terraform_source: self.has_terraform_source,
        }
    }
}

/// The views of a list of projects.
pub open spec fn project_views(projects: Seq<Project>) -> Seq<ProjectView> {
    projects.map_values(|p: Project| p@)
}

impl Clone for Project {
    fn clone(&self) -> (res: Self)
        ensures
            res@ == self@,
    {
        Project {
            name: self.name.clone(),
            dir: self.dir.clone(),
            project_dependencies: clone_texts(&self.project_dependencies),
            watch_files: clone_texts(&self.watch_files),
            has_terraform_source: self.has_terraform_source,
        }
    }
}

} // verus!
