//! The configuration root: every project the tool knows, by name, plus a
//! ready-made example configuration.

use crate::project::Endpoint;
use crate::project::Environment;
use crate::project::Project;
use vstd::prelude::*;

verus! {

/// All configured projects, by name. Names are expected to be unique;
/// lookups take the first entry with a matching name.
#[derive(Debug)]
pub struct Config {
    pub projects: Vec<(String, Project)>,
}

/// A small two-project starter configuration, suitable for writing out as
/// an initial config file: each project has one `dev` environment on a
/// local address and one endpoint.
pub fn get_example_config() -> (c: Config)
    ensures
        c.projects@.len() == 2,
        c.projects@[0].0@ == "project1"@,
        c.projects@[0].1.auth is None,
        c.projects@[0].1.environments@.len() == 1,
        c.projects@[0].1.environments@[0].0@ == "dev"@,
        c.projects@[0].1.environments@[0].1.base_url@ == "http://localhost:8000"@,
        c.projects@[0].1.environments@[0].1.auth is None,
        c.projects@[0].1.endpoints@.len() == 1,
        c.projects@[0].1.endpoints@[0].0@ == "some_object"@,
        c.projects@[0].1.endpoints@[0].1.url_path@ == "/{blah}"@,
        c.projects@[0].1.endpoints@[0].1.method@ == "GET"@,
        c.projects@[0].1.endpoints@[0].1.auth is None,
        c.projects@[1].0@ == "project2"@,
        c.projects@[1].1.auth is None,
        c.projects@[1].1.environments@.len() == 1,
        c.projects@[1].1.environments@[0].0@ == "dev"@,
        c.projects@[1].1.environments@[0].1.base_url@ == "http://localhost:8000"@,
        c.projects@[1].1.environments@[0].1.auth is None,
        c.projects@[1].1.endpoints@.len() == 1,
        c.projects@[1].1.endpoints@[0].0@ == "some_other_object"@,
        c.projects@[1].1.endpoints@[0].1.url_path@ == "/"@,
        c.projects@[1].1.endpoints@[0].1.method@ == "GET"@,
        c.projects@[1].1.endpoints@[0].1.auth is None,
{
    let mut environments1: Vec<(String, Environment)> = Vec::new();
    environments1.push(
        ("dev".to_owned(), Environment::new("http://localhost:8000".to_owned())),
    );
    let mut endpoints1: Vec<(String, Endpoint)> = Vec::new();
    endpoints1.push(("some_object".to_owned(), Endpoint::new("/{blah}")));
    let project1 = Project::from_full(None, environments1, endpoints1);

    let mut environments2: Vec<(String, Environment)> = Vec::new();
    environments2.push(
        ("dev".to_owned(), Environment::new("http://localhost:8000".to_owned())),
    );
    let mut endpoints2: Vec<(String, Endpoint)> = Vec::new();
    endpoints2.push(("some_other_object".to_owned(), Endpoint::new("/")));
    let project2 = Project::from_full(None, environments2, endpoints2);

    let mut projects: Vec<(String, Project)> = Vec::new();
    projects.push(("project1".to_owned(), project1));
    projects.push(("project2".to_owned(), project2));
    Config { projects }
}

} // verus!
