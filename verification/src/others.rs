//! Filters on the method and on parts of the URI of a request.

use vstd::prelude::*;

use crate::filters::{
    said, Filter, FilterBox, FilterExt, FilterInfo, InfoView, Pause, Progress, Side, Verdict, World,
};
use crate::http::{same_method, same_scheme, Method, Request, Scheme};
use crate::path_state::PathState;

verus! {

/// Matches requests with a given method.
#[derive(Debug, PartialEq, Eq)]
pub struct MethodFilter(pub Method);

impl MethodFilter {
    /// Whether a request has the method.
    pub open spec fn accepts(self, req: Request) -> bool {
        same_method(req.method, self.0)
    }
}

impl Filter for MethodFilter {
    open spec fn valid(&self) -> bool {
        true
    }

    open spec fn outcome(&self, w: World, verdict: Verdict, after: World) -> bool {
        verdict == said(self.accepts(w.req)) && after == w
    }

    open spec fn awaits(&self, at: Seq<Side>, key: usize) -> bool {
        at.len() == 0
    }

    open spec fn resumed(
        &self,
        at: Seq<Side>,
        answer: bool,
        w: World,
        verdict: Verdict,
        after: World,
    ) -> bool {
        at.len() == 0 && verdict == said(answer) && after == w
    }

    open spec fn segment(&self) -> Option<Seq<char>> {
        None
    }

    open spec fn sync(&self) -> bool {
        true
    }

    open spec fn named(&self) -> Seq<char> {
        "MethodFilter"@
    }

    open spec fn described(&self) -> InfoView {
        InfoView::Method(self.0)
    }

    fn kind_name(&self) -> (name: &'static str) {
        "MethodFilter"
    }

    fn info(&self) -> (info: FilterInfo) {
        FilterInfo::Method(self.0.clone())
    }

    fn static_path_segment(&self) -> (segment: Option<&str>) {
        None
    }

    fn is_sync(&self) -> (r: bool) {
        true
    }

    fn filter_sync(&self, req: &mut Request, path: &mut PathState) -> (matched: bool) {
        req.method.same(&self.0)
    }

    fn filter(&self, req: &mut Request, path: &mut PathState) -> (progress: Progress) {
        Progress::Done(self.filter_sync(req, path))
    }

    fn resume(
        &self,
        pause: Pause,
        answer: bool,
        req: &mut Request,
        path: &mut PathState,
    ) -> (progress: Progress) {
        Progress::Done(answer)
    }
}

/// Matches requests whose URI has a given scheme.
#[derive(Debug, PartialEq, Eq)]
pub struct SchemeFilter {
    pub scheme: Scheme,
}

impl SchemeFilter {
    /// Whether a request has the scheme.
    pub open spec fn accepts(self, req: Request) -> bool {
        req.scheme matches Some(scheme) && same_scheme(scheme, self.scheme)
    }

    /// A filter for the given scheme.
    pub fn new(scheme: Scheme) -> (filter: Self)
        ensures
            filter.scheme == scheme,
    {
        SchemeFilter { scheme }
    }
}

impl Filter for SchemeFilter {
    open spec fn valid(&self) -> bool {
        true
    }

    open spec fn outcome(&self, w: World, verdict: Verdict, after: World) -> bool {
        verdict == said(self.accepts(w.req)) && after == w
    }

    open spec fn awaits(&self, at: Seq<Side>, key: usize) -> bool {
        at.len() == 0
    }

    open spec fn resumed(
        &self,
        at: Seq<Side>,
        answer: bool,
        w: World,
        verdict: Verdict,
        after: World,
    ) -> bool {
        at.len() == 0 && verdict == said(answer) && after == w
    }

    open spec fn segment(&self) -> Option<Seq<char>> {
        None
    }

    open spec fn sync(&self) -> bool {
        true
    }

    open spec fn named(&self) -> Seq<char> {
        "SchemeFilter"@
    }

    open spec fn described(&self) -> InfoView {
        InfoView::Scheme(self.scheme)
    }

    fn kind_name(&self) -> (name: &'static str) {
        "SchemeFilter"
    }

    fn info(&self) -> (info: FilterInfo) {
        FilterInfo::Scheme(self.scheme.clone())
    }

    fn static_path_segment(&self) -> (segment: Option<&str>) {
        None
    }

    fn is_sync(&self) -> (r: bool) {
        true
    }

    fn filter_sync(&self, req: &mut Request, path: &mut PathState) -> (matched: bool) {
        match &req.scheme {
            Some(scheme) => scheme.same(&self.scheme),
            None => false,
        }
    }

    fn filter(&self, req: &mut Request, path: &mut PathState) -> (progress: Progress) {
        Progress::Done(self.filter_sync(req, path))
    }

    fn resume(
        &self,
        pause: Pause,
        answer: bool,
        req: &mut Request,
        path: &mut PathState,
    ) -> (progress: Progress) {
        Progress::Done(answer)
    }
}

/// Matches requests whose URI has a given host.
#[derive(Debug, PartialEq, Eq)]
pub struct HostFilter {
    pub host: String,
}

impl HostFilter {
    /// Whether a request has the host.
    pub open spec fn accepts(self, req: Request) -> bool {
        req.host matches Some(host) && host@ == self.host@
    }

    /// A filter for the given host.
    pub fn new<T: Into<String>>(host: T) -> (filter: Self)
        ensures
            call_ensures(T::into, (host,), filter.host),
    {
        HostFilter { host: host.into() }
    }
}

impl Filter for HostFilter {
    open spec fn valid(&self) -> bool {
        true
    }

    open spec fn outcome(&self, w: World, verdict: Verdict, after: World) -> bool {
        verdict == said(self.accepts(w.req)) && after == w
    }

    open spec fn awaits(&self, at: Seq<Side>, key: usize) -> bool {
        at.len() == 0
    }

    open spec fn resumed(
        &self,
        at: Seq<Side>,
        answer: bool,
        w: World,
        verdict: Verdict,
        after: World,
    ) -> bool {
        at.len() == 0 && verdict == said(answer) && after == w
    }

    open spec fn segment(&self) -> Option<Seq<char>> {
        None
    }

    open spec fn sync(&self) -> bool {
        true
    }

    open spec fn named(&self) -> Seq<char> {
        "HostFilter"@
    }

    open spec fn described(&self) -> InfoView {
        InfoView::Host(self.host@)
    }

    fn kind_name(&self) -> (name: &'static str) {
        "HostFilter"
    }

    fn info(&self) -> (info: FilterInfo) {
        FilterInfo::Host(self.host.clone())
    }

    fn static_path_segment(&self) -> (segment: Option<&str>) {
        None
    }

    fn is_sync(&self) -> (r: bool) {
        true
    }

    fn filter_sync(&self, req: &mut Request, path: &mut PathState) -> (matched: bool) {
        match &req.host {
            Some(host) => *host == self.host,
            None => false,
        }
    }

    fn filter(&self, req: &mut Request, path: &mut PathState) -> (progress: Progress) {
        Progress::Done(self.filter_sync(req, path))
    }

    fn resume(
        &self,
        pause: Pause,
        answer: bool,
        req: &mut Request,
        path: &mut PathState,
    ) -> (progress: Progress) {
        Progress::Done(answer)
    }
}

/// Matches requests whose URI has a given port.
#[derive(Clone, Copy, Debug, PartialEq, Eq)]
pub struct PortFilter {
    pub port: u16,
}

impl PortFilter {
    /// Whether a request has the port.
    pub open spec fn accepts(self, req: Request) -> bool {
        req.port == Some(self.port)
    }

    /// A filter for the given port.
    pub fn new(port: u16) -> (filter: Self)
        ensures
            filter.port == port,
    {
        PortFilter { port }
    }
}

impl Filter for PortFilter {
    open spec fn valid(&self) -> bool {
        true
    }

    open spec fn outcome(&self, w: World, verdict: Verdict, after: World) -> bool {
        verdict == said(self.accepts(w.req)) && after == w
    }

    open spec fn awaits(&self, at: Seq<Side>, key: usize) -> bool {
        at.len() == 0
    }

    open spec fn resumed(
        &self,
        at: Seq<Side>,
        answer: bool,
        w: World,
        verdict: Verdict,
        after: World,
    ) -> bool {
        at.len() == 0 && verdict == said(answer) && after == w
    }

    open spec fn segment(&self) -> Option<Seq<char>> {
        None
    }

    open spec fn sync(&self) -> bool {
        true
    }

    open spec fn named(&self) -> Seq<char> {
        "PortFilter"@
    }

    open spec fn described(&self) -> InfoView {
        InfoView::Port(self.port)
    }

    fn kind_name(&self) -> (name: &'static str) {
        "PortFilter"
    }

    fn info(&self) -> (info: FilterInfo) {
        FilterInfo::Port(self.port)
    }

    fn static_path_segment(&self) -> (segment: Option<&str>) {
        None
    }

    fn is_sync(&self) -> (r: bool) {
        true
    }

    fn filter_sync(&self, req: &mut Request, path: &mut PathState) -> (matched: bool) {
        match req.port {
            Some(port) => port == self.port,
            None => false,
        }
    }

    fn filter(&self, req: &mut Request, path: &mut PathState) -> (progress: Progress) {
        Progress::Done(self.filter_sync(req, path))
    }

    fn resume(
        &self,
        pause: Pause,
        answer: bool,
        req: &mut Request,
        path: &mut PathState,
    ) -> (progress: Progress) {
        Progress::Done(answer)
    }
}

impl FilterExt for MethodFilter {
    fn boxed(self) -> (boxed: FilterBox) {
        FilterBox(Box::new(self))
    }
}

impl FilterExt for SchemeFilter {
    fn boxed(self) -> (boxed: FilterBox) {
        FilterBox(Box::new(self))
    }
}

impl FilterExt for HostFilter {
    fn boxed(self) -> (boxed: FilterBox) {
        FilterBox(Box::new(self))
    }
}

impl FilterExt for PortFilter {
    fn boxed(self) -> (boxed: FilterBox) {
        FilterBox(Box::new(self))
    }
}

} // verus!
