//! What an OpenAPI document needs to know of a routing tree.
//!
//! A node of the tree can carry tags and security requirements. They hold for the
//! node and for everything below it. [`NormNode`] is the tree with all of that
//! worked out: each node with its path, its method, its goal, and the metadata that
//! it has and inherits.

use vstd::prelude::*;

use crate::filters::{Filter, FilterBox, FilterInfo, InfoView};
use crate::http::Method;
use crate::normalize::{normalize_oapi_path, normalized};
use crate::router::Router;
use crate::tags::TagSet;
use crate::text::{converted, copy_strings, into_strings, texts};

verus! {

/// The operations that an OpenAPI path item can have.
#[derive(Clone, Copy, Debug, PartialEq, Eq)]
pub enum PathItemType {
    Get,
    Post,
    Put,
    Delete,
    Options,
    Head,
    Patch,
    Trace,
}

/// A security scheme that an operation asks for, with the scopes that it needs.
#[derive(Debug, PartialEq, Eq)]
pub struct SecurityRequirement {
    pub name: String,
    pub scopes: Vec<String>,
}

/// The contents of a [`SecurityRequirement`].
pub struct SecurityView {
    pub name: Seq<char>,
    pub scopes: Seq<Seq<char>>,
}

impl View for SecurityRequirement {
    type V = SecurityView;

    open spec fn view(&self) -> SecurityView {
        SecurityView { name: self.name@, scopes: texts(self.scopes@) }
    }
}

impl SecurityRequirement {
    /// A requirement of the scheme `name` with the given scopes.
    pub fn new<N: Into<String>, S: Into<Vec<I>>, I: Into<String>>(name: N, scopes: S) -> (security:
        Self)
        ensures
            call_ensures(N::into, (name,), security.name),
            exists|items: Vec<I>| #[trigger]
                call_ensures(S::into, (scopes,), items) && converted(
                    items@,
                    security.scopes@,
                ),
    {
        let items: Vec<I> = scopes.into();
        SecurityRequirement { name: name.into(), scopes: into_strings(items) }
    }
}

impl Clone for SecurityRequirement {
    fn clone(&self) -> (security: Self)
        ensures
            security@ == self@,
    {
        SecurityRequirement { name: self.name.clone(), scopes: copy_strings(&self.scopes) }
    }
}

/// The views of a list of security requirements.
pub open spec fn security_views(list: Seq<SecurityRequirement>) -> Seq<SecurityView> {
    list.map_values(|s: SecurityRequirement| s@)
}

/// The tags and security requirements of a node.
#[derive(Debug, PartialEq, Eq)]
pub struct Metadata {
    pub tags: TagSet,
    pub securities: Vec<SecurityRequirement>,
}

/// The contents of a [`Metadata`].
#[verifier::ext_equal]
pub struct MetadataView {
    pub tags: Set<Seq<char>>,
    pub securities: Seq<SecurityView>,
}

impl MetadataView {
    /// Neither tags nor requirements.
    pub open spec fn empty() -> MetadataView {
        MetadataView { tags: Set::empty(), securities: seq![] }
    }

    /// The metadata with other metadata added to it: the tags of both, and the
    /// requirements of both, its own first.
    pub open spec fn extended(self, other: MetadataView) -> MetadataView {
        MetadataView {
            tags: self.tags.union(other.tags),
            securities: self.securities + other.securities,
        }
    }
}

impl View for Metadata {
    type V = MetadataView;

    open spec fn view(&self) -> MetadataView {
        MetadataView { tags: self.tags@, securities: security_views(self.securities@) }
    }
}

fn copy_securities(list: &Vec<SecurityRequirement>) -> (copies: Vec<SecurityRequirement>)
    ensures
        security_views(copies@) == security_views(list@),
{
    let mut copies: Vec<SecurityRequirement> = Vec::new();
    let mut i: usize = 0;
    proof {
        assert(security_views(copies@) =~= security_views(list@).take(0));
    }
    while i < list.len()
        invariant
            i <= list.len(),
            security_views(copies@) == security_views(list@).take(i as int),
        decreases list.len() - i,
    {
        let ghost before = security_views(copies@);
        copies.push(list[i].clone());
        assert(security_views(copies@) =~= before.push(list@[i as int]@));
        i = i + 1;
        assert(security_views(copies@) =~= security_views(list@).take(i as int));
    }
    assert(security_views(copies@) =~= security_views(list@));
    copies
}

impl Metadata {
    /// The metadata with other metadata added to it.
    pub fn extend(self, other: &Metadata) -> (metadata: Metadata)
        ensures
            metadata@ == self@.extended(other@),
    {
        let ghost before = security_views(self.securities@);
        let tags = self.tags.with_all(other.tags.list());
        let mut securities = self.securities;
        let mut more = copy_securities(&other.securities);
        let ghost added = security_views(more@);
        securities.append(&mut more);
        let metadata = Metadata { tags, securities };
        assert(metadata@ =~= self@.extended(other@)) by {
            assert(security_views(metadata.securities@) =~= before + added);
        }
        metadata
    }
}

impl Default for Metadata {
    fn default() -> (metadata: Metadata)
        ensures
            metadata@ == MetadataView::empty(),
    {
        let metadata = Metadata { tags: TagSet::new(), securities: Vec::new() };
        assert(metadata@ =~= MetadataView::empty());
        metadata
    }
}

impl Clone for Metadata {
    fn clone(&self) -> (metadata: Metadata)
        ensures
            metadata@ == self@,
    {
        Metadata { tags: self.tags.clone(), securities: copy_securities(&self.securities) }
    }
}

/// What a node itself says of its tags and requirements.
pub open spec fn own_metadata(router: Router) -> MetadataView {
    match router.metadata {
        Some(metadata) => metadata@,
        None => MetadataView::empty(),
    }
}

/// The operation that a method stands for. OpenAPI has none for `CONNECT` and for
/// methods outside the standard set.
pub open spec fn operation(method: Method) -> Option<PathItemType> {
    match method {
        Method::GET => Some(PathItemType::Get),
        Method::POST => Some(PathItemType::Post),
        Method::PUT => Some(PathItemType::Put),
        Method::DELETE => Some(PathItemType::Delete),
        Method::HEAD => Some(PathItemType::Head),
        Method::OPTIONS => Some(PathItemType::Options),
        Method::TRACE => Some(PathItemType::Trace),
        Method::PATCH => Some(PathItemType::Patch),
        Method::CONNECT | Method::Extension(_) => None,
    }
}

/// The path that the first `n` filters describe: that of the last path filter among
/// them, normalized.
pub open spec fn route_path(filters: Seq<FilterBox>, n: int) -> Option<Seq<char>>
    decreases n,
{
    if n <= 0 {
        None
    } else {
        match filters[n - 1].described() {
            InfoView::Path(pattern) => Some(normalized(pattern)),
            _ => route_path(filters, n - 1),
        }
    }
}

/// The operation that the first `n` filters describe: that of the last method filter
/// among them whose method stands for an operation.
pub open spec fn route_method(filters: Seq<FilterBox>, n: int) -> Option<PathItemType>
    decreases n,
{
    if n <= 0 {
        None
    } else {
        match filters[n - 1].described() {
            InfoView::Method(method) => match operation(method) {
                Some(item) => Some(item),
                None => route_method(filters, n - 1),
            },
            _ => route_method(filters, n - 1),
        }
    }
}

/// The contents of an optional string.
pub open spec fn text_in(text: Option<String>) -> Option<Seq<char>> {
    match text {
        Some(t) => Some(t@),
        None => None,
    }
}

/// The path and the operation that the filters of a node describe.
#[derive(Debug, PartialEq, Eq)]
pub struct RouteFilterMetadata {
    pub path: Option<String>,
    pub method: Option<PathItemType>,
}

impl RouteFilterMetadata {
    /// Reads the filters of a node.
    pub fn collect(router: &Router) -> (route: Self)
        ensures
            text_in(route.path) == route_path(router.filters@, router.filters@.len() as int),
            route.method == route_method(router.filters@, router.filters@.len() as int),
    {
        let mut route = RouteFilterMetadata { path: None, method: None };
        let filters = router.filters();
        let mut i: usize = 0;
        while i < filters.len()
            invariant
                i <= filters.len(),
                *filters == router.filters,
                text_in(route.path) == route_path(filters@, i as int),
                route.method == route_method(filters@, i as int),
            decreases filters.len() - i,
        {
            match filters[i].info() {
                FilterInfo::Path(path) => {
                    route.path = Some(normalize_oapi_path(path.as_str()));
                },
                FilterInfo::Method(method) => {
                    // A method without an operation leaves an operation that was
                    // recognized before in place.
                    let item = match method {
                        Method::GET => Some(PathItemType::Get),
                        Method::POST => Some(PathItemType::Post),
                        Method::PUT => Some(PathItemType::Put),
                        Method::DELETE => Some(PathItemType::Delete),
                        Method::HEAD => Some(PathItemType::Head),
                        Method::OPTIONS => Some(PathItemType::Options),
                        Method::TRACE => Some(PathItemType::Trace),
                        Method::PATCH => Some(PathItemType::Patch),
                        Method::CONNECT | Method::Extension(_) => None,
                    };
                    if item.is_some() {
                        route.method = item;
                    }
                },
                // The other kinds carry nothing that a path item shows.
                _ => {},
            }
            i = i + 1;
        }
        route
    }
}

/// A node of the routing tree as OpenAPI sees it.
#[derive(Debug, PartialEq, Eq)]
pub struct NormNode {
    pub handler_type_id: Option<u64>,
    pub handler_type_name: Option<&'static str>,
    pub method: Option<PathItemType>,
    pub path: Option<String>,
    pub children: Vec<NormNode>,
    pub metadata: Metadata,
}

/// Whether `node` and the nodes below it show `router` and the nodes below it, where
/// `inherited` holds for all of them.
pub open spec fn shows(node: NormNode, router: Router, inherited: MetadataView) -> bool
    decreases router,
{
    let metadata = inherited.extended(own_metadata(router));
    &&& text_in(node.path) == route_path(router.filters@, router.filters@.len() as int)
    &&& node.method == route_method(router.filters@, router.filters@.len() as int)
    &&& node.metadata@ == metadata
    &&& match router.goal {
        Some(goal) => node.handler_type_id == Some(goal.type_id) && node.handler_type_name == Some(
            goal.name,
        ),
        None => node.handler_type_id is None && node.handler_type_name is None,
    }
    &&& node.children@.len() == router.routers@.len()
    &&& forall|i: int|
        0 <= i < router.routers@.len() ==> shows(
            node.children@[i],
            #[trigger] router.routers@[i],
            metadata,
        )
}

impl NormNode {
    /// The tree below `router` as OpenAPI sees it, where `inherited_metadata` holds
    /// for all of it.
    pub fn new(router: &Router, inherited_metadata: Metadata) -> (node: NormNode)
        ensures
            shows(node, *router, inherited_metadata@),
        decreases router,
    {
        let route = RouteFilterMetadata::collect(router);
        let ghost inherited = inherited_metadata@;
        let metadata = match &router.metadata {
            Some(own) => inherited_metadata.extend(own),
            None => inherited_metadata,
        };
        assert(metadata@ =~= inherited.extended(own_metadata(*router)));
        let (handler_type_id, handler_type_name) = match &router.goal {
            Some(goal) => (Some(goal.type_id), Some(goal.name)),
            None => (None, None),
        };
        let routers = router.routers();
        let mut children: Vec<NormNode> = Vec::new();
        let mut i: usize = 0;
        while i < routers.len()
            invariant
                i <= routers.len(),
                *routers == router.routers,
                children@.len() == i,
                forall|j: int|
                    0 <= j < i ==> shows(
                        children@[j],
                        #[trigger] router.routers@[j],
                        metadata@,
                    ),
            decreases routers.len() - i,
        {
            let child = NormNode::new(&routers[i], metadata.clone());
            children.push(child);
            i = i + 1;
        }
        NormNode {
            handler_type_id,
            handler_type_name,
            method: route.method,
            path: route.path,
            children,
            metadata,
        }
    }
}

/// Router extension trait for openapi metadata.
pub trait RouterExt: Sized {
    /// Add security requirement to the router.
    ///
    /// All endpoints in the router and its descendants will inherit this security
    /// requirement.
    #[must_use]
    fn oapi_security(self, security: SecurityRequirement) -> Self;

    /// Add security requirements to the router.
    ///
    /// All endpoints in the router and its descendants will inherit these security
    /// requirements.
    #[must_use]
    fn oapi_securities<I: Into<Vec<SecurityRequirement>>>(self, securities: I) -> Self;

    /// Add tag to the router.
    ///
    /// All endpoints in the router and its descendants will inherit this tag.
    #[must_use]
    fn oapi_tag<T: Into<String>>(self, tag: T) -> Self;

    /// Add tags to the router.
    ///
    /// All endpoints in the router and its descendants will inherit these tags.
    #[must_use]
    fn oapi_tags<I: Into<Vec<V>>, V: Into<String>>(self, tags: I) -> Self;
}

/// Whether `after` is `before` with `added` added to its own metadata.
pub open spec fn annotated(before: Router, after: Router, added: MetadataView) -> bool {
    &&& after == (Router { metadata: after.metadata, ..before })
    &&& after.metadata is Some
    &&& own_metadata(after) == own_metadata(before).extended(added)
}

/// Splits the metadata off a node, with empty metadata where it has none.
fn take_metadata(router: Router) -> (parts: (Router, Metadata))
    ensures
        parts.0 == (Router { metadata: None, ..router }),
        parts.1@ == own_metadata(router),
{
    let Router { filters, routers, hoops, goal, metadata } = router;
    let own = match metadata {
        Some(m) => m,
        None => Metadata::default(),
    };
    (Router { filters, routers, hoops, goal, metadata: None }, own)
}

impl RouterExt for Router {
    fn oapi_security(self, security: SecurityRequirement) -> (router: Router)
        ensures
            annotated(
                self,
                router,
                MetadataView { tags: Set::empty(), securities: seq![security@] },
            ),
    {
        let (mut router, mut metadata) = take_metadata(self);
        let ghost added = MetadataView { tags: Set::empty(), securities: seq![security@] };
        metadata.securities.push(security);
        assert(metadata@ =~= own_metadata(self).extended(added));
        router.metadata = Some(metadata);
        router
    }

    fn oapi_securities<I: Into<Vec<SecurityRequirement>>>(self, securities: I) -> (router: Router)
        ensures
            exists|items: Vec<SecurityRequirement>| #[trigger]
                call_ensures(I::into, (securities,), items) && annotated(
                    self,
                    router,
                    MetadataView { tags: Set::empty(), securities: security_views(items@) },
                ),
    {
        let (mut router, mut metadata) = take_metadata(self);
        let mut items: Vec<SecurityRequirement> = securities.into();
        let ghost added = MetadataView { tags: Set::empty(), securities: security_views(items@) };
        metadata.securities.append(&mut items);
        assert(metadata@ =~= own_metadata(self).extended(added));
        router.metadata = Some(metadata);
        router
    }

    fn oapi_tag<T: Into<String>>(self, tag: T) -> (router: Router)
        ensures
            exists|text: String| #[trigger]
                call_ensures(T::into, (tag,), text) && annotated(
                    self,
                    router,
                    MetadataView { tags: Set::empty().insert(text@), securities: seq![] },
                ),
    {
        let (mut router, metadata) = take_metadata(self);
        let text: String = tag.into();
        let ghost added = MetadataView { tags: Set::empty().insert(text@), securities: seq![] };
        let Metadata { tags, securities } = metadata;
        let metadata = Metadata { tags: tags.with(text), securities };
        assert(metadata@ =~= own_metadata(self).extended(added));
        router.metadata = Some(metadata);
        router
    }

    fn oapi_tags<I: Into<Vec<V>>, V: Into<String>>(self, tags: I) -> (router: Router)
        ensures
            exists|items: Vec<V>, strings: Vec<String>| #[trigger]
                call_ensures(I::into, (tags,), items) && #[trigger] converted(items@, strings@)
                    && annotated(
                    self,
                    router,
                    MetadataView { tags: texts(strings@).to_set(), securities: seq![] },
                ),
    {
        let (mut router, metadata) = take_metadata(self);
        let items: Vec<V> = tags.into();
        let strings = into_strings(items);
        let ghost added = MetadataView { tags: texts(strings@).to_set(), securities: seq![] };
        let Metadata { tags: own, securities } = metadata;
        let metadata = Metadata { tags: own.with_all(&strings), securities };
        assert(metadata@ =~= own_metadata(self).extended(added));
        router.metadata = Some(metadata);
        router
    }
}

} // verus!
