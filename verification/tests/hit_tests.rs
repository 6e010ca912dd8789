use slapper::hit::client_credentials_params;
use slapper::hit::resolve_auth;
use slapper::hit::validate_header;
use slapper::project::Auth;

fn client_credentials(tag: &str) -> Auth {
    Auth::ClientCredentials {
        authority: format!("https://login.example/{}", tag),
        client_id: format!("{}-id", tag),
        client_secret: format!("{}-placeholder", tag),
        grant_type: "client_credentials".to_owned(),
        resource: format!("{}-resource", tag),
        scopes: None,
    }
}

#[test]
fn inherit_chain_falls_through_to_project() {
    let endpoint = Some(Auth::Inherit);
    let environment = Some(Auth::Inherit);
    let project = Some(client_credentials("proj"));

    let resolved = resolve_auth(&endpoint, &environment, &project);
    match resolved {
        Some(Auth::ClientCredentials { client_id, .. }) => {
            assert_eq!(client_id, "proj-id");
        }
        _ => panic!("expected the project's client credentials"),
    }
}

#[test]
fn endpoint_credentials_win_unchanged() {
    let endpoint = Some(client_credentials("endp"));
    let environment = Some(client_credentials("envr"));
    let project = None;

    let resolved = resolve_auth(&endpoint, &environment, &project);
    match resolved {
        Some(Auth::ClientCredentials { client_id, .. }) => {
            assert_eq!(client_id, "endp-id");
        }
        _ => panic!("expected the endpoint's client credentials"),
    }
}

#[test]
fn absent_endpoint_auth_defers_to_environment() {
    let endpoint = None;
    let environment = Some(client_credentials("envr"));
    let project = Some(client_credentials("proj"));

    let resolved = resolve_auth(&endpoint, &environment, &project);
    match resolved {
        Some(Auth::ClientCredentials { client_id, .. }) => {
            assert_eq!(client_id, "envr-id");
        }
        _ => panic!("expected the environment's client credentials"),
    }
}

#[test]
fn all_scopes_absent_means_no_credential() {
    let resolved = resolve_auth(&None, &None, &None);
    assert!(resolved.is_none());
}

#[test]
fn project_inherit_is_returned_as_it_stands() {
    let endpoint = Some(Auth::Inherit);
    let environment = None;
    let project = Some(Auth::Inherit);

    let resolved = resolve_auth(&endpoint, &environment, &project);
    assert!(matches!(resolved, Some(Auth::Inherit)));
}

#[test]
fn client_credentials_fill_the_token_form() {
    let auth = Some(client_credentials("proj"));
    let (authority, params) = client_credentials_params(&auth).unwrap();
    assert_eq!(authority, "https://login.example/proj".to_owned());
    assert_eq!(
        params,
        vec![
            ("client_id".to_owned(), "proj-id".to_owned()),
            ("client_secret".to_owned(), "proj-placeholder".to_owned()),
            ("grant_type".to_owned(), "client_credentials".to_owned()),
            ("resource".to_owned(), "proj-resource".to_owned()),
        ]
    );
}

#[test]
fn inherit_needs_no_token() {
    assert!(client_credentials_params(&Some(Auth::Inherit)).is_none());
    assert!(client_credentials_params(&None).is_none());
}

#[test]
fn header_with_key_and_value_is_accepted() {
    assert!(validate_header("subscription-key: 1234".to_owned()).is_ok());
}

#[test]
fn header_without_colon_is_rejected() {
    let err = validate_header("subscription-key".to_owned()).unwrap_err();
    assert_eq!(err, "no value after header key".to_owned());
}

#[test]
fn header_with_leading_colon_is_rejected() {
    assert!(validate_header(":1234".to_owned()).is_err());
}

#[test]
fn header_with_trailing_colon_is_rejected() {
    assert!(validate_header("subscription-key:".to_owned()).is_err());
}

#[test]
fn header_judged_by_its_first_colon() {
    assert!(validate_header(":a:b".to_owned()).is_err());
    assert!(validate_header("a:b:".to_owned()).is_ok());
}
