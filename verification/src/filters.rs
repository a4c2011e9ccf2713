//! Filters: the tests that a request has to pass to enter a node of the routing
//! tree.
//!
//! A filter answers from the request and the walk over its path, and may change
//! both. Most filters answer at once. Those that have to wait for something
//! outside the library pause: the caller finds the answer and resumes them.

use vstd::prelude::*;

use crate::http::{Method, Request, Scheme};
use crate::opts::{And, AndThen, Or, OrElse};
pub use crate::others::{HostFilter, MethodFilter, PortFilter, SchemeFilter};
pub use crate::path_filter::PathFilter;
use crate::path_filter::malformed_notice;
use crate::path_pattern::parsed;
use crate::path_state::{PathState, PathView};

verus! {

/// What happened when the outside test `key` was asked: the request and the path that it
/// was asked on, what it said, and the request and the path that it left.
pub struct Reply {
    pub key: usize,
    pub req: Request,
    pub path: PathView,
    pub answer: bool,
    pub left_req: Request,
    pub left_path: PathView,
}

/// What filters see and may change, and what happened when outside tests were asked so
/// far, in the order in which they were asked.
pub struct World {
    pub req: Request,
    pub path: PathView,
    pub asked: Seq<Reply>,
}

/// What comes of a filter: it lets the request pass, it does not, or it waits for the
/// outside test with the given key.
pub enum Verdict {
    Pass,
    Fail,
    Waits(usize),
}

/// The verdict that an answer stands for.
pub open spec fn said(answer: bool) -> Verdict {
    if answer {
        Verdict::Pass
    } else {
        Verdict::Fail
    }
}

/// The world that a request and a path make up.
pub open spec fn world(req: Request, path: PathState, asked: Seq<Reply>) -> World {
    World { req, path: path@, asked }
}

/// Whether the last thing that happened on the way to `w` is that the outside test
/// `key` was asked on the given request and path, and said `answer`.
pub open spec fn answered(
    w: World,
    req: Request,
    path: PathView,
    key: usize,
    answer: bool,
) -> bool {
    w.asked.len() > 0 && w.asked.last() == (Reply {
        key,
        req,
        path,
        answer,
        left_req: w.req,
        left_path: w.path,
    })
}

/// What had happened before the last outside test was asked.
pub open spec fn earlier(w: World) -> Seq<Reply> {
    w.asked.drop_last()
}

/// Whether what happened in `before` happened, in the same order, at the start of `after`.
pub open spec fn continues(before: Seq<Reply>, after: Seq<Reply>) -> bool {
    before.len() <= after.len() && forall|i: int|
        0 <= i < before.len() ==> #[trigger] after[i] == before[i]
}

/// Structured description of a [`Filter`], from which a routing tree can be read.
///
/// Each built-in filter describes itself by the matching variant. Filters with no
/// description of their own are [`FilterInfo::Other`].
#[derive(Debug)]
pub enum FilterInfo {
    /// Path pattern, as it was written, of a path filter.
    Path(String),
    /// HTTP method matched by a [`MethodFilter`].
    Method(Method),
    /// URI scheme matched by a [`SchemeFilter`].
    Scheme(Scheme),
    /// Host name matched by a [`HostFilter`].
    Host(String),
    /// Port matched by a [`PortFilter`].
    Port(u16),
    /// A filter that does not expose structured information: the composites, the
    /// function filters, and those of users. Carries the name of its type.
    Other(&'static str),
}

/// The contents of a [`FilterInfo`].
pub enum InfoView {
    Path(Seq<char>),
    Method(Method),
    Scheme(Scheme),
    Host(Seq<char>),
    Port(u16),
    Other(Seq<char>),
}

impl Clone for FilterInfo {
    fn clone(&self) -> (info: FilterInfo)
        ensures
            info == *self,
    {
        match self {
            FilterInfo::Path(pattern) => FilterInfo::Path(pattern.clone()),
            FilterInfo::Method(method) => FilterInfo::Method(method.clone()),
            FilterInfo::Scheme(scheme) => FilterInfo::Scheme(scheme.clone()),
            FilterInfo::Host(host) => FilterInfo::Host(host.clone()),
            FilterInfo::Port(port) => FilterInfo::Port(*port),
            FilterInfo::Other(name) => FilterInfo::Other(*name),
        }
    }
}

impl View for FilterInfo {
    type V = InfoView;

    open spec fn view(&self) -> InfoView {
        match *self {
            FilterInfo::Path(pattern) => InfoView::Path(pattern@),
            FilterInfo::Method(method) => InfoView::Method(method),
            FilterInfo::Scheme(scheme) => InfoView::Scheme(scheme),
            FilterInfo::Host(host) => InfoView::Host(host@),
            FilterInfo::Port(port) => InfoView::Port(port),
            FilterInfo::Other(name) => InfoView::Other(name@),
        }
    }
}

/// One of the two filters that a composite is made of.
#[derive(Clone, Copy, Debug, PartialEq, Eq)]
pub enum Side {
    First,
    Second,
}

/// A filter that stopped to wait: `key` names the outside test whose answer it
/// waits for, and `at` the place inside a composite, the outermost step last.
#[derive(Debug)]
pub struct Pause {
    pub key: usize,
    pub at: Vec<Side>,
}

/// How far the evaluation of a filter came.
#[derive(Debug)]
pub enum Progress {
    /// The filter has answered.
    Done(bool),
    /// The filter waits for an answer from outside.
    Await(Pause),
}

/// The verdict that a filter has come to.
pub open spec fn verdict_of(progress: Progress) -> Verdict {
    match progress {
        Progress::Done(matched) => said(matched),
        Progress::Await(pause) => Verdict::Waits(pause.key),
    }
}

/// Trait for filter request.
///
/// What an implementation may answer, and what it may leave behind, is the
/// relation [`Filter::outcome`]: it need not be a function, so a filter is free to
/// depend on things that the library does not see. An implementation that says
/// nothing of itself may do anything, may wait, and declares no static segment.
pub trait Filter: Send + Sync + 'static {
    /// What the filter needs of the parts that it was made of.
    open spec fn valid(&self) -> bool {
        true
    }

    /// Whether the filter, evaluated in the world `w`, may come to `verdict` and leave the
    /// world `after`. Where it waits, that is the world that the outside test is asked in.
    open spec fn outcome(&self, w: World, verdict: Verdict, after: World) -> bool {
        true
    }

    /// Whether the synchronous entry point of the filter, called in the world `w`, may
    /// come to `verdict` and leave the world `after`. It does what the other one does
    /// unless an implementation says otherwise.
    open spec fn sync_outcome(&self, w: World, verdict: Verdict, after: World) -> bool {
        self.outcome(w, verdict, after)
    }

    /// Whether the filter can go on at the place `at` with an answer of the outside
    /// test `key`: it can wherever it waits. A filter that never waits takes the
    /// answer for its own.
    open spec fn awaits(&self, at: Seq<Side>, key: usize) -> bool {
        true
    }

    /// Whether the filter, going on at `at`, may come to `verdict` and leave the world
    /// `after` once the outside test has said `answer` and left the world `w`.
    open spec fn resumed(
        &self,
        at: Seq<Side>,
        answer: bool,
        w: World,
        verdict: Verdict,
        after: World,
    ) -> bool {
        true
    }

    /// The exact static path segment that must match before this filter can succeed.
    open spec fn segment(&self) -> Option<Seq<char>> {
        None
    }

    /// Whether the filter never waits.
    open spec fn sync(&self) -> bool {
        false
    }

    /// The name of the filter's type.
    open spec fn named(&self) -> Seq<char> {
        "Filter"@
    }

    /// What the filter says of itself: the name of its type where it has no description
    /// of its own.
    open spec fn described(&self) -> InfoView {
        InfoView::Other(self.named())
    }

    /// Returns the name of the filter's type.
    fn kind_name(&self) -> (name: &'static str)
        ensures
            name@ == self.named(),
    ;

    /// Returns a structured description of what this filter matches.
    ///
    /// Filters with no description of their own are [`FilterInfo::Other`] with the name
    /// of their type.
    fn info(&self) -> (info: FilterInfo)
        ensures
            info@ == self.described(),
    ;

    /// Returns an exact static path segment that must match before this filter
    /// can succeed, when one is available.
    ///
    /// This is an optimization hint. Implementations return `Some` only when a
    /// different current path segment guarantees that the filter answers `false`
    /// without observable side effects.
    fn static_path_segment(&self) -> (segment: Option<&str>)
        ensures
            match segment {
                Some(s) => self.segment() == Some(s@),
                None => self.segment() is None,
            },
            self.segment() is Some ==> forall|w: World, verdict: Verdict, after: World|
                #![trigger self.outcome(w, verdict, after)]
                #![trigger self.sync_outcome(w, verdict, after)]
                w.path.pick() != self.segment() ==> ((if self.sync() {
                    self.sync_outcome(w, verdict, after)
                } else {
                    self.outcome(w, verdict, after)
                }) <==> (verdict is Fail && after == w)),
    ;

    /// Returns whether this filter can be evaluated without waiting.
    fn is_sync(&self) -> (r: bool)
        ensures
            r == self.sync(),
    ;

    /// Evaluates a filter that never waits.
    ///
    /// Callers check [`Filter::is_sync`] first.
    fn filter_sync(&self, req: &mut Request, path: &mut PathState) -> (matched: bool)
        requires
            self.valid(),
            self.sync(),
        ensures
            forall|asked: Seq<Reply>|
                self.sync_outcome(
                    #[trigger] world(*old(req), *old(path), asked),
                    said(matched),
                    world(*final(req), *final(path), asked),
                ),
    ;

    /// Evaluates the filter up to its answer or to the first outside test that it
    /// has to wait for. The test is to be asked on the request and the path as they are
    /// left.
    ///
    /// Whatever that test will say, and whatever it will leave behind, resuming the
    /// filter then gives one of its outcomes.
    fn filter(&self, req: &mut Request, path: &mut PathState) -> (progress: Progress)
        requires
            self.valid(),
        ensures
            self.sync() ==> progress is Done,
            forall|asked: Seq<Reply>|
                self.outcome(
                    #[trigger] world(*old(req), *old(path), asked),
                    verdict_of(progress),
                    world(*final(req), *final(path), asked),
                ),
            progress matches Progress::Await(pause) ==> self.awaits(pause.at@, pause.key) && forall|
                answer: bool,
                w: World,
                verdict: Verdict,
                after: World,
            |
                answered(w, *final(req), final(path)@, pause.key, answer)
                    && #[trigger] self.resumed(pause.at@, answer, w, verdict, after)
                    ==> self.outcome(
                    world(*old(req), *old(path), earlier(w)),
                    verdict,
                    after,
                ),
    ;

    /// Goes on with a filter that waits, now that the outside test has answered.
    fn resume(
        &self,
        pause: Pause,
        answer: bool,
        req: &mut Request,
        path: &mut PathState,
    ) -> (progress: Progress)
        requires
            self.valid(),
            self.awaits(pause.at@, pause.key),
        ensures
            forall|asked: Seq<Reply>|
                self.resumed(
                    pause.at@,
                    answer,
                    #[trigger] world(*old(req), *old(path), asked),
                    verdict_of(progress),
                    world(*final(req), *final(path), asked),
                ),
            progress matches Progress::Await(next) ==> self.awaits(next.at@, next.key) && forall|
                answer2: bool,
                w: World,
                verdict: Verdict,
                after: World,
            |
                answered(w, *final(req), final(path)@, next.key, answer2)
                    && #[trigger] self.resumed(next.at@, answer2, w, verdict, after)
                    ==> self.resumed(
                    pause.at@,
                    answer,
                    world(*old(req), *old(path), earlier(w)),
                    verdict,
                    after,
                ),
    ;
}

/// Whether a filter, evaluated through the entry point that it is meant to be evaluated
/// through, may come to `verdict` in the world `w` and leave the world `after`: the
/// synchronous one where the filter never waits, and the other one where it may. What
/// outside tests were asked before stays as it was.
pub open spec fn evaluated<F: Filter>(
    filter: F,
    w: World,
    verdict: Verdict,
    after: World,
) -> bool {
    continues(w.asked, after.asked) && (if filter.sync() {
        filter.sync_outcome(w, verdict, after)
    } else {
        filter.outcome(w, verdict, after)
    })
}

/// Whether a filter that waits at `at` may come to `verdict` and leave the world `after`
/// once the outside test has said `answer` and left the world `w`. What outside tests were
/// asked before stays as it was.
pub open spec fn resumes<F: Filter>(
    filter: F,
    at: Seq<Side>,
    answer: bool,
    w: World,
    verdict: Verdict,
    after: World,
) -> bool {
    continues(w.asked, after.asked) && filter.resumed(at, answer, w, verdict, after)
}

/// `FnFilter` accepts a function as its parameter, using this function to filter
/// requests. The function takes the request and the path and hands both back with
/// its answer.
#[derive(Clone, Copy)]
pub struct FnFilter<F>(pub F);

impl<F> FnFilter<F> {
    /// How the filter is shown where filters are listed.
    pub fn label(&self) -> (text: &'static str)
        ensures
            text@ == "fn:fn"@,
    {
        "fn:fn"
    }
}

/// Whether a function that filters may answer `matched` in the world `w` and leave
/// the world `after`.
pub open spec fn call_outcome<F>(f: F, w: World, matched: bool, after: World) -> bool where
    F: Fn(Request, PathState) -> (bool, Request, PathState) + Send + Sync + 'static,
 {
    exists|req: Request, path: PathState, req2: Request, path2: PathState|
        world(req, path, w.asked) == w && world(req2, path2, w.asked) == after
            && #[trigger] call_ensures(
            f,
            (req, path),
            (matched, req2, path2),
        )
}

/// Whether a function that filters may come to `verdict`: it never waits.
pub open spec fn call_verdict<F>(f: F, w: World, verdict: Verdict, after: World) -> bool where
    F: Fn(Request, PathState) -> (bool, Request, PathState) + Send + Sync + 'static,
 {
    verdict !is Waits && call_outcome(f, w, verdict is Pass, after)
}

/// Whether a function that filters takes every request and path.
pub open spec fn call_total<F>(f: F) -> bool where
    F: Fn(Request, PathState) -> (bool, Request, PathState) + Send + Sync + 'static,
 {
    forall|req: Request, path: PathState| #[trigger] call_requires(f, (req, path))
}

/// Calls a function that filters on a request and a path in place.
pub fn call<F>(f: &F, req: &mut Request, path: &mut PathState) -> (matched: bool) where
    F: Fn(Request, PathState) -> (bool, Request, PathState) + Send + Sync + 'static,

    requires
        call_total(*f),
    ensures
        forall|asked: Seq<Reply>|
            call_outcome(
                *f,
                #[trigger] world(*old(req), *old(path), asked),
                matched,
                world(*final(req), *final(path), asked),
            ),
{
    let mut req_in = Request::default();
    let mut path_in = PathState::default();
    std::mem::swap(req, &mut req_in);
    std::mem::swap(path, &mut path_in);
    let (matched, req_out, path_out) = f(req_in, path_in);
    *req = req_out;
    *path = path_out;
    matched
}

impl<F> Filter for FnFilter<F> where
    F: Fn(Request, PathState) -> (bool, Request, PathState) + Send + Sync + 'static,
 {
    open spec fn valid(&self) -> bool {
        call_total(self.0)
    }

    open spec fn outcome(&self, w: World, verdict: Verdict, after: World) -> bool {
        call_verdict(self.0, w, verdict, after)
    }

    open spec fn awaits(&self, at: Seq<Side>, key: usize) -> bool {
        at.len() == 0
    }

    open spec fn resumed(
        &self,
        at: Seq<Side>,
        answer: bool,
        w: World,
        verdict: Verdict,
        after: World,
    ) -> bool {
        at.len() == 0 && verdict == said(answer) && after == w
    }

    open spec fn segment(&self) -> Option<Seq<char>> {
        None
    }

    open spec fn sync(&self) -> bool {
        true
    }

    open spec fn named(&self) -> Seq<char> {
        "FnFilter"@
    }

    open spec fn described(&self) -> InfoView {
        InfoView::Other(self.named())
    }

    fn kind_name(&self) -> (name: &'static str) {
        "FnFilter"
    }

    fn info(&self) -> (info: FilterInfo) {
        FilterInfo::Other(self.kind_name())
    }

    fn static_path_segment(&self) -> (segment: Option<&str>) {
        None
    }

    fn is_sync(&self) -> (r: bool) {
        true
    }

    fn filter_sync(&self, req: &mut Request, path: &mut PathState) -> (matched: bool) {
        call(&self.0, req, path)
    }

    fn filter(&self, req: &mut Request, path: &mut PathState) -> (progress: Progress) {
        Progress::Done(self.filter_sync(req, path))
    }

    fn resume(
        &self,
        pause: Pause,
        answer: bool,
        req: &mut Request,
        path: &mut PathState,
    ) -> (progress: Progress) {
        Progress::Done(answer)
    }
}

/// A filter whose answer comes from outside the library: the outside test named by
/// `key`, which may take its time.
#[derive(Clone, Copy, Debug, PartialEq, Eq)]
pub struct Deferred {
    pub key: usize,
}

impl Filter for Deferred {
    open spec fn valid(&self) -> bool {
        true
    }

    open spec fn outcome(&self, w: World, verdict: Verdict, after: World) -> bool {
        match verdict {
            Verdict::Waits(key) => key == self.key && after == w,
            _ => answered(after, w.req, w.path, self.key, verdict is Pass) && earlier(after)
                == w.asked,
        }
    }

    open spec fn awaits(&self, at: Seq<Side>, key: usize) -> bool {
        at.len() == 0 && key == self.key
    }

    open spec fn resumed(
        &self,
        at: Seq<Side>,
        answer: bool,
        w: World,
        verdict: Verdict,
        after: World,
    ) -> bool {
        at.len() == 0 && verdict == said(answer) && after == w
    }

    open spec fn segment(&self) -> Option<Seq<char>> {
        None
    }

    open spec fn sync(&self) -> bool {
        false
    }

    open spec fn named(&self) -> Seq<char> {
        "Deferred"@
    }

    open spec fn described(&self) -> InfoView {
        InfoView::Other(self.named())
    }

    fn kind_name(&self) -> (name: &'static str) {
        "Deferred"
    }

    fn info(&self) -> (info: FilterInfo) {
        FilterInfo::Other(self.kind_name())
    }

    fn static_path_segment(&self) -> (segment: Option<&str>) {
        None
    }

    fn is_sync(&self) -> (r: bool) {
        false
    }

    fn filter_sync(&self, req: &mut Request, path: &mut PathState) -> (matched: bool) {
        false
    }

    fn filter(&self, req: &mut Request, path: &mut PathState) -> (progress: Progress) {
        Progress::Await(Pause { key: self.key, at: Vec::new() })
    }

    fn resume(
        &self,
        pause: Pause,
        answer: bool,
        req: &mut Request,
        path: &mut PathState,
    ) -> (progress: Progress) {
        Progress::Done(answer)
    }
}

/// A filter of any type, as the nodes of the routing tree hold it.
pub struct FilterBox(pub Box<dyn Filter>);

impl Filter for FilterBox {
    open spec fn valid(&self) -> bool {
        self.0.valid()
    }

    open spec fn outcome(&self, w: World, verdict: Verdict, after: World) -> bool {
        self.0.outcome(w, verdict, after)
    }

    open spec fn sync_outcome(&self, w: World, verdict: Verdict, after: World) -> bool {
        self.0.sync_outcome(w, verdict, after)
    }

    open spec fn awaits(&self, at: Seq<Side>, key: usize) -> bool {
        self.0.awaits(at, key)
    }

    open spec fn resumed(
        &self,
        at: Seq<Side>,
        answer: bool,
        w: World,
        verdict: Verdict,
        after: World,
    ) -> bool {
        self.0.resumed(at, answer, w, verdict, after)
    }

    open spec fn segment(&self) -> Option<Seq<char>> {
        self.0.segment()
    }

    open spec fn sync(&self) -> bool {
        self.0.sync()
    }

    open spec fn named(&self) -> Seq<char> {
        self.0.named()
    }

    open spec fn described(&self) -> InfoView {
        self.0.described()
    }

    fn kind_name(&self) -> (name: &'static str) {
        self.0.kind_name()
    }

    fn info(&self) -> (info: FilterInfo) {
        self.0.info()
    }

    fn static_path_segment(&self) -> (segment: Option<&str>) {
        self.0.static_path_segment()
    }

    fn is_sync(&self) -> (r: bool) {
        self.0.is_sync()
    }

    fn filter_sync(&self, req: &mut Request, path: &mut PathState) -> (matched: bool) {
        self.0.filter_sync(req, path)
    }

    fn filter(&self, req: &mut Request, path: &mut PathState) -> (progress: Progress) {
        self.0.filter(req, path)
    }

    fn resume(
        &self,
        pause: Pause,
        answer: bool,
        req: &mut Request,
        path: &mut PathState,
    ) -> (progress: Progress) {
        self.0.resume(pause, answer, req, path)
    }
}

/// Whether a boxed filter is the filter `f`, as far as anyone can tell from what it
/// does.
pub open spec fn acts_as<F: Filter>(boxed: FilterBox, f: F) -> bool {
    &&& boxed.valid() == f.valid()
    &&& boxed.sync() == f.sync()
    &&& boxed.segment() == f.segment()
    &&& boxed.named() == f.named()
    &&& boxed.described() == f.described()
    &&& forall|w: World, verdict: Verdict, after: World| #[trigger]
        boxed.outcome(w, verdict, after) == f.outcome(w, verdict, after)
    &&& forall|w: World, verdict: Verdict, after: World| #[trigger]
        boxed.sync_outcome(w, verdict, after) == f.sync_outcome(w, verdict, after)
    &&& forall|at: Seq<Side>, key: usize| #[trigger]
        boxed.awaits(at, key) == f.awaits(at, key)
    &&& forall|at: Seq<Side>, answer: bool, w: World, verdict: Verdict, after: World| #[trigger]
        boxed.resumed(at, answer, w, verdict, after) == f.resumed(at, answer, w, verdict, after)
}

/// What can be done with a filter to build others, and nodes, from it.
pub trait FilterExt: Filter + Sized {
    /// The filter, ready to be held by a node of the routing tree.
    fn boxed(self) -> (boxed: FilterBox)
        ensures
            acts_as(boxed, self),
    ;

    /// Create a new filter use `And` filter.
    fn and<F: Filter>(self, other: F) -> (filter: And<Self, F>)
        ensures
            filter == (And { first: self, second: other }),
    {
        And { first: self, second: other }
    }

    /// Create a new filter use `Or` filter.
    fn or<F: Filter>(self, other: F) -> (filter: Or<Self, F>)
        ensures
            filter == (Or { first: self, second: other }),
    {
        Or { first: self, second: other }
    }

    /// Create a new filter use `AndThen` filter.
    fn and_then<F>(self, fun: F) -> (filter: AndThen<Self, F>) where
        F: Fn(Request, PathState) -> (bool, Request, PathState) + Send + Sync + 'static,

        ensures
            filter == (AndThen { filter: self, callback: fun }),
            filter.valid() <==> self.valid() && call_total(fun),
            filter.sync() == self.sync(),
            filter.segment() == self.segment(),
            filter.described() == InfoView::Other(filter.named()),
    {
        AndThen { filter: self, callback: fun }
    }

    /// Create a new filter use `OrElse` filter.
    fn or_else<F>(self, fun: F) -> (filter: OrElse<Self, F>) where
        F: Fn(Request, PathState) -> (bool, Request, PathState) + Send + Sync + 'static,

        ensures
            filter == (OrElse { filter: self, callback: fun }),
            filter.valid() <==> self.valid() && call_total(fun),
            filter.sync() == self.sync(),
            filter.segment() is None,
            filter.described() == InfoView::Other(filter.named()),
    {
        OrElse { filter: self, callback: fun }
    }
}

impl<F> FilterExt for FnFilter<F> where
    F: Fn(Request, PathState) -> (bool, Request, PathState) + Send + Sync + 'static,
 {
    fn boxed(self) -> (boxed: FilterBox) {
        FilterBox(Box::new(self))
    }
}

impl FilterExt for FilterBox {
    fn boxed(self) -> (boxed: FilterBox) {
        self
    }
}

impl FilterExt for Deferred {
    fn boxed(self) -> (boxed: FilterBox) {
        FilterBox(Box::new(self))
    }
}

/// Filter request by uri scheme.
#[must_use]
pub fn scheme(value: Scheme) -> (filter: SchemeFilter)
    ensures
        filter.scheme == value,
{
    SchemeFilter::new(value)
}

/// Filter request by uri hostname.
pub fn host<T: Into<String>>(name: T) -> (filter: HostFilter)
    ensures
        call_ensures(T::into, (name,), filter.host),
{
    HostFilter::new(name)
}

/// Filter request by uri port.
#[must_use]
pub fn port(number: u16) -> (filter: PortFilter)
    ensures
        filter.port == number,
{
    PortFilter::new(number)
}

/// Filter request use `PathFilter`.
///
/// An invalid path pattern gives a filter that never matches. Use [`try_path`] to
/// handle malformed patterns explicitly.
pub fn path<T: Into<String>>(pattern: T) -> (filter: PathFilter)
    ensures
        exists|text: String| #[trigger]
            call_ensures(T::into, (pattern,), text) && filter.pattern() == text@,
{
    PathFilter::new(pattern)
}

/// Try building a `PathFilter`.
///
/// # Errors
///
/// Returns an error when the path pattern is malformed.
pub fn try_path<T: Into<String>>(pattern: T) -> (filter: Result<PathFilter, String>)
    ensures
        exists|text: String| #[trigger]
            call_ensures(T::into, (pattern,), text) && match filter {
                Ok(f) => parsed(text@) is Some && f.pattern() == text@,
                Err(message) => parsed(text@) is None && message@ == malformed_notice() + text@,
            },
{
    PathFilter::try_new(pattern)
}

/// Filter request, only allow get method.
#[must_use]
pub fn get() -> (filter: MethodFilter)
    ensures
        filter == MethodFilter(Method::GET),
{
    MethodFilter(Method::GET)
}

/// Filter request, only allow head method.
#[must_use]
pub fn head() -> (filter: MethodFilter)
    ensures
        filter == MethodFilter(Method::HEAD),
{
    MethodFilter(Method::HEAD)
}

/// Filter request, only allow options method.
#[must_use]
pub fn options() -> (filter: MethodFilter)
    ensures
        filter == MethodFilter(Method::OPTIONS),
{
    MethodFilter(Method::OPTIONS)
}

/// Filter request, only allow post method.
#[must_use]
pub fn post() -> (filter: MethodFilter)
    ensures
        filter == MethodFilter(Method::POST),
{
    MethodFilter(Method::POST)
}

/// Filter request, only allow patch method.
#[must_use]
pub fn patch() -> (filter: MethodFilter)
    ensures
        filter == MethodFilter(Method::PATCH),
{
    MethodFilter(Method::PATCH)
}

/// Filter request, only allow put method.
#[must_use]
pub fn put() -> (filter: MethodFilter)
    ensures
        filter == MethodFilter(Method::PUT),
{
    MethodFilter(Method::PUT)
}

/// Filter request, only allow delete method.
#[must_use]
pub fn delete() -> (filter: MethodFilter)
    ensures
        filter == MethodFilter(Method::DELETE),
{
    MethodFilter(Method::DELETE)
}

} // verus!
