use slapper::config::get_example_config;
use slapper::project::Auth;
use slapper::project::Endpoint;
use slapper::project::Environment;
use slapper::project::Project;
use slapper::project::method_default;
use slapper::project::skip_if_get;

#[test]
fn new_endpoint_uses_the_default_method() {
    let endpoint = Endpoint::new("/things/{id}");
    assert_eq!(endpoint.url_path, "/things/{id}".to_owned());
    assert_eq!(endpoint.method, "GET".to_owned());
    assert!(endpoint.auth.is_none());
}

#[test]
fn default_method_is_get() {
    assert_eq!(method_default(), "GET".to_owned());
}

#[test]
fn skip_if_get_accepts_empty_and_any_casing_of_get() {
    assert!(skip_if_get(""));
    assert!(skip_if_get("GET"));
    assert!(skip_if_get("get"));
    assert!(skip_if_get("GeT"));
    assert!(!skip_if_get("POST"));
    assert!(!skip_if_get("GETT"));
}

#[test]
fn new_environment_has_no_auth() {
    let environment = Environment::new("http://localhost:8000".to_owned());
    assert_eq!(environment.base_url, "http://localhost:8000".to_owned());
    assert!(environment.auth.is_none());
}

#[test]
fn new_project_is_empty() {
    let project = Project::new();
    assert!(project.auth.is_none());
    assert!(project.environments.is_empty());
    assert!(project.endpoints.is_empty());
}

#[test]
fn from_full_keeps_its_parts() {
    let environments = vec![(
        "dev".to_owned(),
        Environment::new("http://localhost:8000".to_owned()),
    )];
    let endpoints = vec![("thing".to_owned(), Endpoint::new("/{blah}"))];
    let project = Project::from_full(Some(Auth::Inherit), environments, endpoints);

    assert!(matches!(project.auth, Some(Auth::Inherit)));
    assert_eq!(project.environments.len(), 1);
    assert_eq!(project.environments[0].0, "dev".to_owned());
    assert_eq!(
        project.environments[0].1.base_url,
        "http://localhost:8000".to_owned()
    );
    assert_eq!(project.endpoints.len(), 1);
    assert_eq!(project.endpoints[0].0, "thing".to_owned());
    assert_eq!(project.endpoints[0].1.url_path, "/{blah}".to_owned());
}

#[test]
fn example_config_has_two_local_projects() {
    let config = get_example_config();
    assert_eq!(config.projects.len(), 2);

    let (name1, project1) = &config.projects[0];
    assert_eq!(name1, &"project1".to_owned());
    assert!(project1.auth.is_none());
    assert_eq!(project1.environments.len(), 1);
    assert_eq!(project1.environments[0].0, "dev".to_owned());
    assert_eq!(
        project1.environments[0].1.base_url,
        "http://localhost:8000".to_owned()
    );
    assert_eq!(project1.endpoints.len(), 1);
    assert_eq!(project1.endpoints[0].0, "some_object".to_owned());
    assert_eq!(project1.endpoints[0].1.url_path, "/{blah}".to_owned());
    assert_eq!(project1.endpoints[0].1.method, "GET".to_owned());

    let (name2, project2) = &config.projects[1];
    assert_eq!(name2, &"project2".to_owned());
    assert!(project2.auth.is_none());
    assert_eq!(project2.endpoints[0].0, "some_other_object".to_owned());
    assert_eq!(project2.endpoints[0].1.url_path, "/".to_owned());
}
