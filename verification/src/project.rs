//! The configuration data model: projects, their environments and endpoints,
//! and the credential descriptors attached to each scope.

use vstd::prelude::*;

verus! {

/// A credential descriptor attached to an endpoint, an environment, or a
/// project. Its absence (`Option::None` at the use site) means "no
/// credential".
#[derive(Debug)]
pub enum Auth {
    /// Defer to the next-outer scope.
    Inherit,
    /// An OAuth2-style client-credentials descriptor. Redeeming it for a
    /// bearer token is the caller's business; this library only decides which
    /// descriptor applies.
    ClientCredentials {
        authority: String,
        client_id: String,
        client_secret: String,
        grant_type: String,
        resource: String,
        scopes: Option<String>,
    },
}

/// A named request target inside a project: a templated URL path, an HTTP
/// method name, and an optional credential descriptor.
#[derive(Debug)]
pub struct Endpoint {
    pub url_path: String,
    pub method: String,
    pub auth: Option<Auth>,
}

impl Endpoint {
    /// An endpoint for the given path, with the default method and no
    /// credential of its own.
    pub fn new(url_path: &str) -> (e: Self)
        ensures
            e.url_path@ == url_path@,
            e.method@ == "GET"@,
            e.auth is None,
    {
        Self { url_path: url_path.to_owned(), method: method_default(), auth: None }
    }
}

/// The method an endpoint uses when its configuration names none.
pub fn method_default() -> (m: String)
    ensures
        m@ == "GET"@,
{
    "GET".to_owned()
}

/// What `str::to_uppercase` returns; it depends on the characters alone.
pub uninterp spec fn upper_of(s: Seq<char>) -> Seq<char>;

/// Relies on `str::to_uppercase` for Unicode-aware case mapping.
#[verifier::external_body]
fn to_uppercase_str(s: &str) -> (r: String)
    ensures
        r@ == upper_of(s@),
{
    s.to_uppercase()
}

/// True when a configured method needs no explicit mention because it is
/// empty or is (some casing of) the default method.
pub fn skip_if_get(value: &str) -> (r: bool)
    ensures
        r == (value@.len() == 0 || upper_of(value@) == "GET"@),
{
    if value.is_empty() {
        true
    } else {
        let upper: String = to_uppercase_str(value);
        let get: String = "GET".to_owned();
        upper == get
    }
}

/// A named host to send requests to: a base address that endpoint paths are
/// joined onto, and an optional credential descriptor.
#[derive(Debug)]
pub struct Environment {
    pub base_url: String,
    pub auth: Option<Auth>,
}

impl Environment {
    /// An environment at the given base address with no credential of its
    /// own.
    pub fn new(base_url: String) -> (e: Self)
        ensures
            e.base_url == base_url,
            e.auth is None,
    {
        Self { base_url, auth: None }
    }
}

/// A project: an optional project-wide credential descriptor plus its named
/// environments and endpoints. Names are expected to be unique; lookups take
/// the first entry with a matching name.
#[derive(Debug)]
pub struct Project {
    pub auth: Option<Auth>,
    pub environments: Vec<(String, Environment)>,
    pub endpoints: Vec<(String, Endpoint)>,
}

impl Project {
    /// An empty project.
    pub fn new() -> (p: Self)
        ensures
            p.auth is None,
            p.environments@.len() == 0,
            p.endpoints@.len() == 0,
    {
        Self::default()
    }

    /// A project assembled from its parts, kept exactly as given.
    pub fn from_full(
        auth: Option<Auth>,
        environments: Vec<(String, Environment)>,
        endpoints: Vec<(String, Endpoint)>,
    ) -> (p: Self)
        ensures
            p.auth == auth,
            p.environments == environments,
            p.endpoints == endpoints,
    {
        Self { auth, environments, endpoints }
    }
}

impl Default for Project {
    fn default() -> (p: Self)
        ensures
            p.auth is None,
            p.environments@.len() == 0,
            p.endpoints@.len() == 0,
    {
        Self { auth: None, environments: Vec::new(), endpoints: Vec::new() }
    }
}

} // verus!
