//! URLs, as the `url` crate reads them.

use crate::text::{opt_text, strs};
use vstd::prelude::*;

verus! {

/// What the tool needs to know of an absolute URL.
#[derive(Debug, PartialEq, Eq)]
pub struct Endpoint {
    /// The URL in normal form.
    pub url: String,
    pub scheme: String,
    pub host: Option<String>,
    /// The port, be it written down or the one that the scheme implies.
    pub port: Option<u16>,
}

/// What an endpoint is.
#[verifier::ext_equal]
pub struct EndpointView {
    pub url: Seq<char>,
    pub scheme: Seq<char>,
    pub host: Option<Seq<char>>,
    pub port: Option<u16>,
}

impl View for Endpoint {
    type V = EndpointView;

    open spec fn view(&self) -> EndpointView {
        EndpointView {
            url: self.url@,
            scheme: self.scheme@,
            host: opt_text(self.host),
            port: self.port,
        }
    }
}

impl Clone for Endpoint {
    fn clone(&self) -> (r: Self)
        ensures
            r@ == self@,
    {
        Endpoint {
            url: self.url.clone(),
            scheme: self.scheme.clone(),
            host: crate::resource::catalog::clone_opt(&self.host),
            port: self.port,
        }
    }
}

/// Normal form, scheme, host and port of a URL as the `url` crate reads it,
/// or what it says is wrong with the URL.
pub uninterp spec fn url_parts(raw: Seq<char>) -> Result<
    (Seq<char>, Seq<char>, Option<Seq<char>>, Option<u16>),
    Seq<char>,
>;

/// The URL with its path replaced by the segments, each percent-encoded;
/// `None` where the text is no URL or the URL can have no path.
pub uninterp spec fn url_with_path(base: Seq<char>, segments: Seq<Seq<char>>) -> Option<Seq<char>>;

/// The endpoint a text stands for.
pub open spec fn endpoint_of(raw: Seq<char>) -> Result<EndpointView, Seq<char>> {
    match url_parts(raw) {
        Ok((url, scheme, host, port)) => Ok(EndpointView { url, scheme, host, port }),
        Err(e) => Err(e),
    }
}

/// The model of a parsed endpoint.
pub open spec fn parse_view(r: Result<Endpoint, String>) -> Result<EndpointView, Seq<char>> {
    match r {
        Ok(e) => Ok(e@),
        Err(m) => Err(m@),
    }
}

/// The parts of a parsed endpoint, or the problem.
pub open spec fn parts_of(r: Result<Endpoint, String>) -> Result<
    (Seq<char>, Seq<char>, Option<Seq<char>>, Option<u16>),
    Seq<char>,
> {
    match r {
        Ok(e) => Ok((e.url@, e.scheme@, opt_text(e.host), e.port)),
        Err(m) => Err(m@),
    }
}

/// `url::Url::parse`, with `as_str`, `scheme`, `host_str` and
/// `port_or_known_default` of the result; the text of the error where it
/// fails.
#[verifier::external_body]
fn parse_endpoint(raw: &str) -> (r: Result<Endpoint, String>)
    ensures
        parts_of(r) == url_parts(raw@),
{
    match url::Url::parse(raw) {
        Ok(u) => Ok(Endpoint {
            url: u.as_str().to_string(),
            scheme: u.scheme().to_string(),
            host: u.host_str().map(|h| h.to_string()),
            port: u.port_or_known_default(),
        }),
        Err(e) => Err(e.to_string()),
    }
}

/// `url::Url::path_segments_mut`: the URL with its path cleared and the
/// segments appended.
#[verifier::external_body]
fn replace_path(base: &str, segments: &Vec<String>) -> (r: Option<String>)
    ensures
        opt_text(r) == url_with_path(base@, strs(segments@)),
{
    let mut u = url::Url::parse(base).ok()?;
    u.path_segments_mut().ok()?.clear().extend(segments);
    Some(u.to_string())
}

/// Two URLs have the same scheme, host and port.
pub open spec fn same_origin(a: EndpointView, b: EndpointView) -> bool {
    a.scheme == b.scheme && a.host == b.host && a.port == b.port
}

/// The scheme is that of the web, encrypted or not.
pub open spec fn is_web(e: EndpointView) -> bool {
    e.scheme == "http"@ || e.scheme == "https"@
}

impl Endpoint {
    /// Reads an endpoint.
    pub fn parse(raw: &str) -> (r: Result<Endpoint, String>)
        ensures
            parse_view(r) == endpoint_of(raw@),
    {
        parse_endpoint(raw)
    }

    /// Whether the scheme is `http` or `https`.
    pub fn has_web_scheme(&self) -> (r: bool)
        ensures
            r == is_web(self@),
    {
        crate::text::str_eq(self.scheme.as_str(), "http") || crate::text::str_eq(
            self.scheme.as_str(),
            "https",
        )
    }

    /// Whether two endpoints have the same scheme, host and port.
    pub fn has_origin_of(&self, other: &Endpoint) -> (r: bool)
        ensures
            r == same_origin(self@, other@),
    {
        let same_host = match (&self.host, &other.host) {
            (Some(a), Some(b)) => *a == *b,
            (None, None) => true,
            _ => false,
        };
        let same_port = match (self.port, other.port) {
            (Some(a), Some(b)) => a == b,
            (None, None) => true,
            _ => false,
        };
        self.scheme == other.scheme && same_host && same_port
    }

    /// The URL of a call: the endpoint's path is replaced by the segments,
    /// each encoded so that it cannot break out of its place. `None` where
    /// the endpoint can have no path.
    pub fn with_path(&self, segments: &Vec<String>) -> (r: Option<String>)
        ensures
            opt_text(r) == url_with_path(self@.url, strs(segments@)),
    {
        replace_path(self.url.as_str(), segments)
    }
}

/// An endpoint is made of the parts its URL is read to, each in its place,
/// and a URL that cannot be read gives none.
pub proof fn endpoint_is_made_of_its_parts(raw: Seq<char>)
    ensures
        endpoint_of(raw) matches Ok(e) ==> url_parts(raw) == Ok::<
            (Seq<char>, Seq<char>, Option<Seq<char>>, Option<u16>),
            Seq<char>,
        >((e.url, e.scheme, e.host, e.port)),
        endpoint_of(raw) is Err <==> url_parts(raw) is Err,
        endpoint_of(raw) matches Err(m) ==> url_parts(raw) == Err::<
            (Seq<char>, Seq<char>, Option<Seq<char>>, Option<u16>),
            Seq<char>,
        >(m),
{
}

/// An endpoint shares its origin with itself, and with another only if
/// scheme, host and port are the same; the path has no part in it.
pub proof fn origin_is_scheme_host_and_port(a: EndpointView, b: EndpointView, url: Seq<char>)
    ensures
        same_origin(a, EndpointView { url, ..a }),
        same_origin(a, b) ==> a.scheme == b.scheme && a.host == b.host && a.port == b.port,
        same_origin(a, b) == same_origin(b, a),
{
}

} // verus!
