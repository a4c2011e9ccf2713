//! The routing tree.

use std::sync::Arc;

use vstd::prelude::*;

use crate::conduct::{
    all_decided, all_keep_parts, all_revocable, decided, keeps_parts, leaves_revocable,
};
use crate::filter_laws::{boxed_conduct, path_filter_conduct};
use crate::filters::{acts_as, get, path, post, FilterBox, FilterExt};
use crate::http::Method;
use crate::oapi::Metadata;
use crate::others::MethodFilter;
use crate::path_filter::PathFilter;
use crate::semantics::{all_sync, valid};

verus! {

/// What routing knows of a request handler: the identity of its type, and its
/// name.
#[derive(Debug, PartialEq, Eq)]
pub struct Handler {
    pub type_id: u64,
    pub name: &'static str,
}

/// A node of the routing tree. A request enters a node when it passes the node's
/// filters; the first of its children that leads to a goal takes the request, and
/// the node's own goal takes it where none does and the path is at its end.
pub struct Router {
    pub filters: Vec<FilterBox>,
    pub routers: Vec<Router>,
    pub hoops: Vec<Arc<Handler>>,
    pub goal: Option<Arc<Handler>>,
    pub metadata: Option<Metadata>,
}

/// The result of a detection: the middleware from the root of the tree down to
/// the goal, and the goal.
#[derive(Debug, PartialEq, Eq)]
pub struct DetectMatched {
    pub hoops: Vec<Arc<Handler>>,
    pub goal: Arc<Handler>,
}

/// Whether a node has nothing but filters.
pub open spec fn bare(router: Router) -> bool {
    router.routers@.len() == 0 && router.hoops@.len() == 0 && router.goal is None
        && router.metadata is None
}

/// Whether a node only asks for a method and then is at its goal.
pub open spec fn method_node(child: Router, method: Method, goal: Handler) -> bool {
    &&& child.filters@.len() == 1
    &&& acts_as(child.filters@[0], MethodFilter(method))
    &&& child.goal == Some(Arc::new(goal))
    &&& bare(Router { goal: None, ..child })
}

impl Router {
    /// An empty node.
    pub fn new() -> (router: Router)
        ensures
            router.filters@.len() == 0,
            bare(router),
            valid(router),
            all_sync(router),
            all_keep_parts(router),
            all_revocable(router),
            all_decided(router),
    {
        Router {
            filters: Vec::new(),
            routers: Vec::new(),
            hoops: Vec::new(),
            goal: None,
            metadata: None,
        }
    }

    /// A node with a path filter.
    pub fn with_path<T: Into<String>>(pattern: T) -> (router: Router)
        ensures
            router.filters@.len() == 1,
            exists|text: String, f: PathFilter| #[trigger]
                call_ensures(T::into, (pattern,), text) && f.pattern() == text@
                    && #[trigger] acts_as(router.filters@[0], f),
            bare(router),
            valid(router),
            all_sync(router),
            all_keep_parts(router),
            all_revocable(router),
            all_decided(router),
    {
        let filter = path(pattern);
        proof {
            path_filter_conduct(filter);
        }
        Router::new().filter(filter)
    }

    /// A node with the given filter.
    pub fn with_filter<F: FilterExt>(filter: F) -> (router: Router)
        ensures
            router.filters@.len() == 1,
            acts_as(router.filters@[0], filter),
            bare(router),
            filter.valid() ==> valid(router),
            filter.sync() ==> all_sync(router),
            keeps_parts(filter) ==> all_keep_parts(router),
            leaves_revocable(filter) ==> all_revocable(router),
            decided(filter) ==> all_decided(router),
    {
        Router::new().filter(filter)
    }

    /// Adds a filter that a request has to pass after those that are there.
    pub fn filter<F: FilterExt>(self, filter: F) -> (router: Router)
        ensures
            router == (Router { filters: router.filters, ..self }),
            router.filters@.len() == self.filters@.len() + 1,
            router.filters@.drop_last() == self.filters@,
            acts_as(router.filters@.last(), filter),
            valid(self) && filter.valid() ==> valid(router),
            all_sync(self) && filter.sync() ==> all_sync(router),
            all_keep_parts(self) && keeps_parts(filter) ==> all_keep_parts(router),
            all_revocable(self) && leaves_revocable(filter) ==> all_revocable(router),
            all_decided(self) && decided(filter) ==> all_decided(router),
    {
        let mut router = self;
        let boxed = filter.boxed();
        proof {
            boxed_conduct(boxed, filter);
        }
        router.filters.push(boxed);
        assert(router.filters@.drop_last() =~= self.filters@);
        router
    }

    /// Adds a child behind those that are there.
    pub fn push(self, router: Router) -> (parent: Router)
        ensures
            parent == (Router { routers: parent.routers, ..self }),
            parent.routers@ == self.routers@.push(router),
            valid(self) && valid(router) ==> valid(parent),
            all_sync(self) && all_sync(router) ==> all_sync(parent),
            all_keep_parts(self) && all_keep_parts(router) ==> all_keep_parts(parent),
            all_revocable(self) && all_revocable(router) ==> all_revocable(parent),
            all_decided(self) && all_decided(router) ==> all_decided(parent),
    {
        let mut parent = self;
        parent.routers.push(router);
        parent
    }

    /// Sets the goal.
    pub fn goal(self, goal: Handler) -> (router: Router)
        ensures
            router == (Router { goal: Some(Arc::new(goal)), ..self }),
            valid(self) ==> valid(router),
            all_sync(self) ==> all_sync(router),
            all_keep_parts(self) ==> all_keep_parts(router),
            all_revocable(self) ==> all_revocable(router),
            all_decided(self) ==> all_decided(router),
    {
        let mut router = self;
        router.goal = Some(Arc::new(goal));
        router
    }

    /// Adds middleware behind that which is there.
    pub fn hoop(self, hoop: Handler) -> (router: Router)
        ensures
            router == (Router { hoops: router.hoops, ..self }),
            router.hoops@ == self.hoops@.push(Arc::new(hoop)),
            valid(self) ==> valid(router),
            all_sync(self) ==> all_sync(router),
            all_keep_parts(self) ==> all_keep_parts(router),
            all_revocable(self) ==> all_revocable(router),
            all_decided(self) ==> all_decided(router),
    {
        let mut router = self;
        router.hoops.push(Arc::new(hoop));
        router
    }

    /// Adds a child that takes `GET` requests to the given goal.
    pub fn get(self, goal: Handler) -> (router: Router)
        ensures
            router == (Router { routers: router.routers, ..self }),
            router.routers@.len() == self.routers@.len() + 1,
            router.routers@.drop_last() == self.routers@,
            method_node(router.routers@.last(), Method::GET, goal),
            valid(self) ==> valid(router),
            all_sync(self) ==> all_sync(router),
            all_keep_parts(self) ==> all_keep_parts(router),
            all_revocable(self) ==> all_revocable(router),
            all_decided(self) ==> all_decided(router),
    {
        let router = self.push(Router::with_filter(get()).goal(goal));
        assert(router.routers@.drop_last() =~= self.routers@);
        router
    }

    /// Adds a child that takes `POST` requests to the given goal.
    pub fn post(self, goal: Handler) -> (router: Router)
        ensures
            router == (Router { routers: router.routers, ..self }),
            router.routers@.len() == self.routers@.len() + 1,
            router.routers@.drop_last() == self.routers@,
            method_node(router.routers@.last(), Method::POST, goal),
            valid(self) ==> valid(router),
            all_sync(self) ==> all_sync(router),
            all_keep_parts(self) ==> all_keep_parts(router),
            all_revocable(self) ==> all_revocable(router),
            all_decided(self) ==> all_decided(router),
    {
        let router = self.push(Router::with_filter(post()).goal(goal));
        assert(router.routers@.drop_last() =~= self.routers@);
        router
    }

    /// The filters of this node.
    pub fn filters(&self) -> (filters: &Vec<FilterBox>)
        ensures
            *filters == self.filters,
    {
        &self.filters
    }

    /// The children of this node.
    pub fn routers(&self) -> (routers: &Vec<Router>)
        ensures
            *routers == self.routers,
    {
        &self.routers
    }
}

} // verus!
