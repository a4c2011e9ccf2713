//! The part of an HTTP request that route filters read, as plain values.

use vstd::prelude::*;

verus! {

/// An HTTP request method.
#[derive(Debug, PartialEq, Eq)]
pub enum Method {
    GET,
    POST,
    PUT,
    DELETE,
    HEAD,
    OPTIONS,
    CONNECT,
    PATCH,
    TRACE,
    /// A method outside the standard set, by its token.
    Extension(String),
}

/// Whether two methods are the same method.
pub open spec fn same_method(a: Method, b: Method) -> bool {
    match (a, b) {
        (Method::GET, Method::GET) => true,
        (Method::POST, Method::POST) => true,
        (Method::PUT, Method::PUT) => true,
        (Method::DELETE, Method::DELETE) => true,
        (Method::HEAD, Method::HEAD) => true,
        (Method::OPTIONS, Method::OPTIONS) => true,
        (Method::CONNECT, Method::CONNECT) => true,
        (Method::PATCH, Method::PATCH) => true,
        (Method::TRACE, Method::TRACE) => true,
        (Method::Extension(x), Method::Extension(y)) => x@ == y@,
        _ => false,
    }
}

impl Method {
    /// Compares two methods.
    pub fn same(&self, other: &Method) -> (r: bool)
        ensures
            r == same_method(*self, *other),
    {
        match (self, other) {
            (Method::GET, Method::GET) => true,
            (Method::POST, Method::POST) => true,
            (Method::PUT, Method::PUT) => true,
            (Method::DELETE, Method::DELETE) => true,
            (Method::HEAD, Method::HEAD) => true,
            (Method::OPTIONS, Method::OPTIONS) => true,
            (Method::CONNECT, Method::CONNECT) => true,
            (Method::PATCH, Method::PATCH) => true,
            (Method::TRACE, Method::TRACE) => true,
            (Method::Extension(x), Method::Extension(y)) => *x == *y,
            _ => false,
        }
    }
}

impl Clone for Method {
    fn clone(&self) -> (r: Method)
        ensures
            r == *self,
    {
        match self {
            Method::GET => Method::GET,
            Method::POST => Method::POST,
            Method::PUT => Method::PUT,
            Method::DELETE => Method::DELETE,
            Method::HEAD => Method::HEAD,
            Method::OPTIONS => Method::OPTIONS,
            Method::CONNECT => Method::CONNECT,
            Method::PATCH => Method::PATCH,
            Method::TRACE => Method::TRACE,
            Method::Extension(token) => Method::Extension(token.clone()),
        }
    }
}

/// A URI scheme.
#[derive(Debug, PartialEq, Eq)]
pub enum Scheme {
    HTTP,
    HTTPS,
    /// A scheme other than the two of the web, by its name.
    Other(String),
}

/// Whether two schemes are the same scheme.
pub open spec fn same_scheme(a: Scheme, b: Scheme) -> bool {
    match (a, b) {
        (Scheme::HTTP, Scheme::HTTP) => true,
        (Scheme::HTTPS, Scheme::HTTPS) => true,
        (Scheme::Other(x), Scheme::Other(y)) => x@ == y@,
        _ => false,
    }
}

impl Scheme {
    /// Compares two schemes.
    pub fn same(&self, other: &Scheme) -> (r: bool)
        ensures
            r == same_scheme(*self, *other),
    {
        match (self, other) {
            (Scheme::HTTP, Scheme::HTTP) => true,
            (Scheme::HTTPS, Scheme::HTTPS) => true,
            (Scheme::Other(x), Scheme::Other(y)) => *x == *y,
            _ => false,
        }
    }
}

impl Clone for Scheme {
    fn clone(&self) -> (r: Scheme)
        ensures
            r == *self,
    {
        match self {
            Scheme::HTTP => Scheme::HTTP,
            Scheme::HTTPS => Scheme::HTTPS,
            Scheme::Other(name) => Scheme::Other(name.clone()),
        }
    }
}

/// A request as routing sees it. Parts of the URI that a request does not carry
/// are `None`.
#[derive(Debug, PartialEq, Eq)]
pub struct Request {
    pub method: Method,
    pub scheme: Option<Scheme>,
    pub host: Option<String>,
    pub port: Option<u16>,
    pub path: String,
}

impl Request {
    /// A request with the given method and path and nothing else known of it.
    pub fn new(method: Method, path: String) -> (req: Request)
        ensures
            req == (Request { method, scheme: None, host: None, port: None, path }),
    {
        Request { method, scheme: None, host: None, port: None, path }
    }
}

impl Default for Request {
    /// A `GET` of the empty path.
    fn default() -> (req: Request)
        ensures
            req.method == Method::GET,
            req.scheme is None,
            req.host is None,
            req.port is None,
            req.path@ == Seq::<char>::empty(),
    {
        Request::new(Method::GET, String::new())
    }
}

} // verus!
