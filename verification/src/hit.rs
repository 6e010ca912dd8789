//! Request-side decisions: which credential descriptor applies to a
//! request, and whether a `key: value` header argument is acceptable.

use crate::parse::find_char;
use crate::parse::lemma_find_char;
use crate::parse::lemma_find_char_exact;
use crate::project::Auth;
use vstd::prelude::*;

verus! {

/// Whether a scope's descriptor defers to the next-outer scope: it does
/// when it is absent or explicitly `Inherit`.
pub open spec fn defers(a: Option<Auth>) -> bool {
    match a {
        Option::None => true,
        Option::Some(Auth::Inherit) => true,
        Option::Some(Auth::ClientCredentials { .. }) => false,
    }
}

/// The effective credential for a request: the endpoint's descriptor when
/// it does not defer, else the environment's when it does not defer, else
/// the project's — whatever the project holds, since there is no further
/// scope to defer to.
pub open spec fn resolve_auth_spec(
    endpoint_auth: Option<Auth>,
    environment_auth: Option<Auth>,
    project_auth: Option<Auth>,
) -> Option<Auth> {
    if !defers(endpoint_auth) {
        endpoint_auth
    } else if !defers(environment_auth) {
        environment_auth
    } else {
        project_auth
    }
}

/// Whether this scope's descriptor defers to the next-outer scope.
fn defers_auth(a: &Option<Auth>) -> (r: bool)
    ensures
        r == defers(*a),
{
    match a {
        Option::None => true,
        Option::Some(Auth::Inherit) => true,
        Option::Some(Auth::ClientCredentials { .. }) => false,
    }
}

/// Pick the effective credential descriptor for a request out of the
/// endpoint, environment, and project scopes. A scope that is absent or
/// `Inherit` defers outward; the project's descriptor is returned as it
/// stands, so an `Inherit` surviving at project level is the caller's cue
/// that there is no credential. Resolution never fails: an absent result
/// is a valid outcome, not an error.
pub fn resolve_auth<'a>(
    endpoint_auth: &'a Option<Auth>,
    environment_auth: &'a Option<Auth>,
    project_auth: &'a Option<Auth>,
) -> (r: &'a Option<Auth>)
    ensures
        *r == resolve_auth_spec(*endpoint_auth, *environment_auth, *project_auth),
{
    if !defers_auth(endpoint_auth) {
        endpoint_auth
    } else if !defers_auth(environment_auth) {
        environment_auth
    } else {
        project_auth
    }
}

/// The token request that a resolved descriptor calls for: the authority
/// to post to and the four form parameters, in that order. Only a
/// client-credentials descriptor needs a token; anything else needs none.
pub fn client_credentials_params(auth: &Option<Auth>) -> (r: Option<
    (String, Vec<(String, String)>),
>)
    ensures
        match *auth {
            Option::Some(
                Auth::ClientCredentials {
                    authority,
                    client_id,
                    client_secret,
                    grant_type,
                    resource,
                    ..
                },
            ) => r matches Some(t) && t.0 == authority && t.1@.len() == 4 && t.1@[0].0@
                == "client_id"@ && t.1@[0].1 == client_id && t.1@[1].0@ == "client_secret"@
                && t.1@[1].1 == client_secret && t.1@[2].0@ == "grant_type"@ && t.1@[2].1
                == grant_type && t.1@[3].0@ == "resource"@ && t.1@[3].1 == resource,
            _ => r is None,
        },
{
    match auth {
        Option::Some(
            Auth::ClientCredentials {
                authority,
                client_id,
                client_secret,
                grant_type,
                resource,
                ..
            },
        ) => {
            let mut params: Vec<(String, String)> = Vec::new();
            params.push(("client_id".to_owned(), client_id.clone()));
            params.push(("client_secret".to_owned(), client_secret.clone()));
            params.push(("grant_type".to_owned(), grant_type.clone()));
            params.push(("resource".to_owned(), resource.clone()));
            Some((authority.clone(), params))
        },
        _ => None,
    }
}

/// Accept a `key: value` header argument: the first `:` must be neither
/// the first character nor the last, so a nonempty key and value surround
/// it.
pub fn validate_header(header: String) -> (r: Result<(), String>)
    ensures
        (match find_char(header@, ':') {
            Option::Some(i) => (r is Ok) <==> (0 < i && i + 1 < header@.len()),
            Option::None => r is Err,
        }),
        r matches Err(e) ==> e@ == "no value after header key"@,
{
    let s = header.as_str();
    let n = s.unicode_len();
    let mut i: usize = 0;
    while i < n && s.get_char(i) != ':'
        invariant
            n as nat == header@.len(),
            s@ == header@,
            i <= n,
            forall|k: int| 0 <= k < i ==> header@[k] != ':',
        decreases n - i,
    {
        i = i + 1;
    }
    if i == n {
        proof {
            lemma_find_char(header@, ':');
            if let Option::Some(j) = find_char(header@, ':') {
                assert(header@[j] != ':');
            }
        }
        Err("no value after header key".to_owned())
    } else {
        proof {
            lemma_find_char_exact(header@, ':', i as int);
        }
        if 0 < i && i + 1 < n {
            Ok(())
        } else {
            Err("no value after header key".to_owned())
        }
    }
}

} // verus!
