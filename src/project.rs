use vstd::prelude::*;
use std::collections::HashMap;

verus! {

/// The `[project]` table of a project manifest.
#[derive(Debug)]
pub struct Project {
    pub name: String,
    pub version: String,
    pub main: String,
    pub repository: Option<String>,
    pub license: Option<String>,
    pub private: bool,
}

/// A binary target of a project.
#[derive(Debug)]
pub struct Bin {
    pub name: String,
    pub entry: String,
}

#[derive(Debug)]
pub struct Dependency {
    pub version: String,
}

#[derive(Debug)]
pub struct Author {
    pub name: String,
    pub email: String,
}

/// A project manifest.
#[derive(Debug)]
pub struct CBProj {
    pub project: Project,
    pub bin: Option<Vec<Bin>>,
    pub dependencies: Option<HashMap<String, Dependency>>,
    pub authors: Option<Vec<Author>>,
}

/// The arguments of the manifest scaffolding command (it takes none).
#[derive(Debug)]
pub struct Init {}

/// The arguments of the command that runs a bytecode file.
#[derive(Debug)]
pub struct Run {
    pub file: String,
    pub debug: bool,
}

/// The arguments of the command that prints the version (it takes none).
#[derive(Debug)]
pub struct Version {}

/// An answer left empty stands for no value.
pub open spec fn optional(s: String) -> Option<String> {
    if s@.len() == 0 {
        None
    } else {
        Some(s)
    }
}

fn optional_answer(s: String) -> (r: Option<String>)
    ensures
        r == optional(s),
{
    if s.as_str().is_empty() {
        None
    } else {
        Some(s)
    }
}

impl CBProj {
    /// The manifest of a new project from the scaffolding answers: an empty
    /// repository or license is left out, the project is private, and there
    /// are no binaries, dependencies or authors yet.
    pub fn new_project(
        name: String,
        version: String,
        main: String,
        repository: String,
        license: String,
    ) -> (r: CBProj)
        ensures
            r.project.name == name,
            r.project.version == version,
            r.project.main == main,
            r.project.repository == optional(repository),
            r.project.license == optional(license),
            r.project.private,
            r.bin is None,
            r.dependencies is None,
            r.authors is None,
    {
        let project = Project {
            name,
            version,
            main,
            repository: optional_answer(repository),
            license: optional_answer(license),
            private: true,
        };
        CBProj { project, bin: None, dependencies: None, authors: None }
    }
}

/// What `Path::file_stem` gives for a path, as text.
pub uninterp spec fn file_stem_of(path: Seq<char>) -> Option<Seq<char>>;

/// Relies on std::path::Path::file_stem: the final component's name
/// without its extension; text in, so the lossy conversion loses nothing.
#[verifier::external_body]
fn path_file_stem(path: &str) -> (r: Option<String>)
    ensures
        match r {
            Some(s) => file_stem_of(path@) == Some(s@),
            None => file_stem_of(path@) is None,
        },
{
    std::path::Path::new(path).file_stem().map(|f| f.to_string_lossy().to_string())
}

/// The file name of `path` without directory and extension.
pub fn get_file_name_without_extension(path: &str) -> (r: Option<String>)
    ensures
        match r {
            Some(s) => file_stem_of(path@) == Some(s@),
            None => file_stem_of(path@) is None,
        },
{
    path_file_stem(path)
}

} // verus!
