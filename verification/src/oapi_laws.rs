//! What holds of every routing tree as OpenAPI sees it.

use vstd::prelude::*;

use crate::filters::{Filter, FilterBox, InfoView};
use crate::http::Method;
use crate::normalize::normalized;
use crate::oapi::{
    annotated, operation, own_metadata, route_method, route_path, shows, MetadataView, NormNode,
    PathItemType, SecurityRequirement, SecurityView,
};
use crate::router::Router;

verus! {

/// Whether the indices in `steps` lead from `router` down to one of its descendants.
pub open spec fn leads_down(router: Router, steps: Seq<int>) -> bool
    decreases steps.len(),
{
    steps.len() > 0 ==> 0 <= steps[0] < router.routers@.len() && leads_down(
        router.routers@[steps[0]],
        steps.drop_first(),
    )
}

/// The node that the indices in `steps` lead to.
pub open spec fn descendant(node: NormNode, steps: Seq<int>) -> NormNode
    decreases steps.len(),
{
    if steps.len() == 0 {
        node
    } else {
        descendant(node.children@[steps[0]], steps.drop_first())
    }
}

/// All endpoints in a router and its descendants inherit the tags of the router, and
/// its security requirements, which come before their own.
pub proof fn descendants_inherit(
    node: NormNode,
    router: Router,
    inherited: MetadataView,
    steps: Seq<int>,
)
    requires
        shows(node, router, inherited),
        leads_down(router, steps),
    ensures
        node.metadata@.tags.subset_of(descendant(node, steps).metadata@.tags),
        node.metadata@.securities.is_prefix_of(descendant(node, steps).metadata@.securities),
    decreases steps.len(),
{
    if steps.len() > 0 {
        let child = node.children@[steps[0]];
        let below = router.routers@[steps[0]];
        let rest = steps.drop_first();
        assert(shows(child, below, node.metadata@));
        descendants_inherit(child, below, node.metadata@, rest);
        let end = descendant(child, rest).metadata@;
        assert forall|i: int| 0 <= i < node.metadata@.securities.len() implies (
        #[trigger] node.metadata@.securities[i]) == end.securities[i] by {
            assert(child.metadata@.securities[i] == node.metadata@.securities[i]);
            assert(end.securities.take(child.metadata@.securities.len() as int)[i]
                == end.securities[i]);
        }
        assert(node.metadata@.securities =~= end.securities.take(
            node.metadata@.securities.len() as int,
        ));
    }
}

/// What is added to a router reaches all endpoints in the router and its descendants:
/// every tag, and every security requirement.
pub proof fn annotation_reaches_descendants(
    before: Router,
    after: Router,
    added: MetadataView,
    node: NormNode,
    inherited: MetadataView,
    steps: Seq<int>,
)
    requires
        annotated(before, after, added),
        shows(node, after, inherited),
        leads_down(after, steps),
    ensures
        added.tags.subset_of(descendant(node, steps).metadata@.tags),
        forall|i: int|
            0 <= i < added.securities.len() ==> descendant(
                node,
                steps,
            ).metadata@.securities.contains(#[trigger] added.securities[i]),
{
    descendants_inherit(node, after, inherited, steps);
    let end = descendant(node, steps).metadata@;
    let here = node.metadata@.securities;
    assert forall|i: int| 0 <= i < added.securities.len() implies end.securities.contains(
        #[trigger] added.securities[i],
    ) by {
        let j = inherited.securities.len() + own_metadata(before).securities.len() + i;
        assert(here[j] == added.securities[i]);
        assert(end.securities.take(here.len() as int)[j] == end.securities[j]);
    }
}

/// A method filter without an OpenAPI operation does not erase the operation of the
/// filters before it.
pub proof fn unknown_method_keeps_operation(filters: Seq<FilterBox>, filter: FilterBox)
    requires
        filter.described() matches InfoView::Method(method) && operation(method) is None,
    ensures
        route_method(filters.push(filter), (filters.len() + 1) as int) == route_method(
            filters,
            filters.len() as int,
        ),
{
    lemma_route_prefix(filters, filter, filters.len() as int);
}

/// Filters that are neither path filters nor method filters add nothing to what is
/// shown, composites among them.
pub proof fn other_filters_show_nothing(filters: Seq<FilterBox>, filter: FilterBox)
    requires
        !(filter.described() is Path),
        !(filter.described() is Method),
    ensures
        route_path(filters.push(filter), (filters.len() + 1) as int) == route_path(
            filters,
            filters.len() as int,
        ),
        route_method(filters.push(filter), (filters.len() + 1) as int) == route_method(
            filters,
            filters.len() as int,
        ),
{
    lemma_route_prefix(filters, filter, filters.len() as int);
}

proof fn lemma_route_prefix(filters: Seq<FilterBox>, filter: FilterBox, n: int)
    requires
        n <= filters.len(),
    ensures
        route_path(filters.push(filter), n) == route_path(filters, n),
        route_method(filters.push(filter), n) == route_method(filters, n),
    decreases n,
{
    if n > 0 {
        lemma_route_prefix(filters, filter, n - 1);
    }
}

/// The node of the routing tree that the indices in `steps` lead to.
pub open spec fn router_at(router: Router, steps: Seq<int>) -> Router
    decreases steps.len(),
{
    if steps.len() == 0 {
        router
    } else {
        router_at(router.routers@[steps[0]], steps.drop_first())
    }
}

/// Whether the operation `item` is the one that is named after `method`.
pub open spec fn named_after(item: PathItemType, method: Method) -> bool {
    match item {
        PathItemType::Get => method is GET,
        PathItemType::Post => method is POST,
        PathItemType::Put => method is PUT,
        PathItemType::Delete => method is DELETE,
        PathItemType::Options => method is OPTIONS,
        PathItemType::Head => method is HEAD,
        PathItemType::Patch => method is PATCH,
        PathItemType::Trace => method is TRACE,
    }
}

/// Whether a filter asks for a method that an operation is named after.
pub open spec fn names_operation(filter: FilterBox) -> bool {
    filter.described() is Method && exists|item: PathItemType| #[trigger]
        named_after(item, filter.described()->Method_0)
}

/// An operation is shown for the methods of the standard set but `CONNECT`, and it is the
/// one that is named after the method.
pub proof fn operation_is_named_after_its_method(method: Method, item: PathItemType)
    ensures
        operation(method) == Some(item) <==> named_after(item, method),
        operation(method) is None <==> method is CONNECT || method is Extension,
{
}

/// The path that is shown of filters is that of the last path filter among them, in
/// normalized form, and none where no path filter is among them.
pub proof fn last_path_filter_is_shown(filters: Seq<FilterBox>, n: int, i: int)
    requires
        0 <= n <= filters.len(),
        forall|j: int| i < j < n ==> !((#[trigger] filters[j]).described() is Path),
        -1 <= i < n,
        i >= 0 ==> filters[i].described() is Path,
    ensures
        i < 0 ==> route_path(filters, n) is None,
        i >= 0 ==> route_path(filters, n) == Some(normalized(filters[i].described()->Path_0)),
    decreases n,
{
    if n > i + 1 {
        assert(!(filters[n - 1].described() is Path));
        last_path_filter_is_shown(filters, n - 1, i);
    }
}

/// The operation that is shown of filters is named after the method of the last method
/// filter among them that has one, and none is shown where there is no such filter.
pub proof fn last_operation_is_shown(filters: Seq<FilterBox>, n: int, i: int)
    requires
        0 <= n <= filters.len(),
        forall|j: int| i < j < n ==> !names_operation(#[trigger] filters[j]),
        -1 <= i < n,
        i >= 0 ==> names_operation(filters[i]),
    ensures
        i < 0 ==> route_method(filters, n) is None,
        i >= 0 ==> match (route_method(filters, n), filters[i].described()) {
            (Some(item), InfoView::Method(method)) => named_after(item, method),
            _ => false,
        },
    decreases n,
{
    if n > i + 1 {
        assert(!names_operation(filters[n - 1]));
        if let InfoView::Method(method) = filters[n - 1].described() {
            if let Some(item) = operation(method) {
                assert(named_after(item, method));
            }
        }
        last_operation_is_shown(filters, n - 1, i);
    } else if n > 0 {
        let method = filters[i].described()->Method_0;
        let item = choose|item: PathItemType| #[trigger] named_after(item, method);
        assert(operation(method) == Some(item));
    }
}

/// Every node of the tree is shown by the node at its place: with its goal where it has one,
/// whether or not it has children, and no goal where it has none; with the path of its last
/// path filter and the operation of its last method filter that names one; and with as many
/// children as it has.
pub proof fn every_node_is_shown(
    node: NormNode,
    router: Router,
    inherited: MetadataView,
    steps: Seq<int>,
)
    requires
        shows(node, router, inherited),
        leads_down(router, steps),
    ensures
        descendant(node, steps).children@.len() == router_at(router, steps).routers@.len(),
        descendant(node, steps).handler_type_id == match router_at(router, steps).goal {
            Some(goal) => Some(goal.type_id),
            None => None,
        },
        descendant(node, steps).handler_type_name == match router_at(router, steps).goal {
            Some(goal) => Some(goal.name),
            None => None,
        },
        match descendant(node, steps).path {
            Some(text) => exists|i: int|
                0 <= i < router_at(router, steps).filters@.len() && (
                #[trigger] router_at(router, steps).filters@[i]).described() is Path && text@
                    == normalized(router_at(router, steps).filters@[i].described()->Path_0)
                    && forall|j: int|
                    i < j < router_at(router, steps).filters@.len() ==> !((
                    #[trigger] router_at(router, steps).filters@[j]).described() is Path),
            None => forall|j: int|
                0 <= j < router_at(router, steps).filters@.len() ==> !((
                #[trigger] router_at(router, steps).filters@[j]).described() is Path),
        },
        match descendant(node, steps).method {
            Some(item) => exists|i: int|
                0 <= i < router_at(router, steps).filters@.len() && (
                #[trigger] router_at(router, steps).filters@[i]).described() is Method
                    && named_after(
                    item,
                    router_at(router, steps).filters@[i].described()->Method_0,
                ) && forall|j: int|
                    i < j < router_at(router, steps).filters@.len() ==> !names_operation(
                        #[trigger] router_at(router, steps).filters@[j],
                    ),
            None => forall|j: int|
                0 <= j < router_at(router, steps).filters@.len() ==> !names_operation(
                    #[trigger] router_at(router, steps).filters@[j],
                ),
        },
    decreases steps.len(),
{
    if steps.len() > 0 {
        let child = node.children@[steps[0]];
        let below = router.routers@[steps[0]];
        assert(shows(child, below, node.metadata@));
        every_node_is_shown(child, below, node.metadata@, steps.drop_first());
    } else {
        let filters = router.filters@;
        let n = filters.len() as int;
        let p = lemma_last_path(filters, n);
        last_path_filter_is_shown(filters, n, p);
        let m = lemma_last_operation(filters, n);
        last_operation_is_shown(filters, n, m);
        if p >= 0 {
            assert(filters[p].described() is Path);
        }
        if m >= 0 {
            assert(filters[m].described() is Method);
        }
    }
}

proof fn lemma_last_path(filters: Seq<FilterBox>, n: int) -> (i: int)
    requires
        0 <= n <= filters.len(),
    ensures
        -1 <= i < n,
        forall|j: int| i < j < n ==> !((#[trigger] filters[j]).described() is Path),
        i >= 0 ==> filters[i].described() is Path,
    decreases n,
{
    if n == 0 {
        -1
    } else if filters[n - 1].described() is Path {
        n - 1
    } else {
        lemma_last_path(filters, n - 1)
    }
}

proof fn lemma_last_operation(filters: Seq<FilterBox>, n: int) -> (i: int)
    requires
        0 <= n <= filters.len(),
    ensures
        -1 <= i < n,
        forall|j: int| i < j < n ==> !names_operation(#[trigger] filters[j]),
        i >= 0 ==> names_operation(filters[i]),
    decreases n,
{
    if n == 0 {
        -1
    } else if names_operation(filters[n - 1]) {
        n - 1
    } else {
        lemma_last_operation(filters, n - 1)
    }
}

/// The security requirements that a node itself asks for.
pub open spec fn own_securities(router: Router) -> Seq<SecurityView> {
    match router.metadata {
        Some(metadata) => metadata.securities@.map_values(|s: SecurityRequirement| s@),
        None => seq![],
    }
}

/// Whether a node itself carries a tag.
pub open spec fn carries(router: Router, tag: Seq<char>) -> bool {
    router.metadata matches Some(metadata) && metadata.tags@.contains(tag)
}

/// What the nodes on the way down to a node ask for, the root first and the node last.
pub open spec fn securities_on_the_way(router: Router, steps: Seq<int>) -> Seq<Seq<SecurityView>> {
    Seq::new(steps.len() + 1, |k: int| own_securities(router_at(router, steps.take(k))))
}

/// A node is shown with the security requirements that were handed down, behind them those
/// of the nodes on the way down to it, and its own last: all of them, and no others. It is
/// shown with the tags of all these nodes, and with no others.
pub proof fn metadata_comes_from_the_way_down(
    node: NormNode,
    router: Router,
    inherited: MetadataView,
    steps: Seq<int>,
)
    requires
        shows(node, router, inherited),
        leads_down(router, steps),
    ensures
        descendant(node, steps).metadata@.securities == inherited.securities
            + securities_on_the_way(router, steps).flatten(),
        forall|tag: Seq<char>| #[trigger]
            descendant(node, steps).metadata@.tags.contains(tag) <==> inherited.tags.contains(tag)
                || exists|k: int|
                0 <= k <= steps.len() && carries(
                    router_at(router, #[trigger] steps.take(k)),
                    tag,
                ),
    decreases steps.len(),
{
    let way = securities_on_the_way(router, steps);
    assert(steps.take(0) =~= Seq::<int>::empty());
    assert(way[0] == own_securities(router));
    assert(node.metadata@.securities =~= inherited.securities + way[0]);
    assert forall|tag: Seq<char>| #[trigger] node.metadata@.tags.contains(tag) <==>
        inherited.tags.contains(tag) || carries(router, tag) by {}
    if steps.len() == 0 {
        way.lemma_flatten_one_element();
        assert forall|tag: Seq<char>| #[trigger]
            node.metadata@.tags.contains(tag) implies inherited.tags.contains(tag) || exists|
            k: int,
        |
            0 <= k <= steps.len() && carries(router_at(router, #[trigger] steps.take(k)), tag) by {
            if carries(router, tag) {
                assert(carries(router_at(router, steps.take(0)), tag));
            }
        }
    } else {
        let child = node.children@[steps[0]];
        let below = router.routers@[steps[0]];
        let rest = steps.drop_first();
        assert(shows(child, below, node.metadata@));
        metadata_comes_from_the_way_down(child, below, node.metadata@, rest);
        let further = securities_on_the_way(below, rest);
        assert forall|k: int| 0 <= k <= rest.len() implies router_at(
            router,
            #[trigger] steps.take(k + 1),
        ) == router_at(below, rest.take(k)) by {
            assert(steps.take(k + 1).drop_first() =~= rest.take(k));
            assert(steps.take(k + 1)[0] == steps[0]);
        }
        assert(way.drop_first() =~= further) by {
            assert forall|k: int| 0 <= k < further.len() implies way.drop_first()[k]
                == further[k] by {
                assert(router_at(router, steps.take(k + 1)) == router_at(below, rest.take(k)));
            }
        }
        assert(way.flatten() == way[0] + further.flatten());
        assert(node.metadata@.securities + further.flatten() =~= inherited.securities
            + way.flatten());
        let shown = descendant(child, rest).metadata@.tags;
        assert forall|tag: Seq<char>| #[trigger] shown.contains(tag) <==>
            inherited.tags.contains(tag) || exists|k: int|
            0 <= k <= steps.len() && carries(router_at(router, #[trigger] steps.take(k)), tag) by {
            if carries(router, tag) {
                assert(carries(router_at(router, steps.take(0)), tag));
            }
            if exists|k: int|
                0 <= k <= rest.len() && carries(router_at(below, #[trigger] rest.take(k)), tag) {
                let k = choose|k: int|
                    0 <= k <= rest.len() && carries(
                        router_at(below, #[trigger] rest.take(k)),
                        tag,
                    );
                assert(carries(router_at(router, steps.take(k + 1)), tag));
            }
            if exists|k: int|
                0 <= k <= steps.len() && carries(router_at(router, #[trigger] steps.take(k)), tag) {
                let k = choose|k: int|
                    0 <= k <= steps.len() && carries(
                        router_at(router, #[trigger] steps.take(k)),
                        tag,
                    );
                if k > 0 {
                    let back = k - 1;
                    assert(router_at(router, steps.take(back + 1)) == router_at(
                        below,
                        rest.take(back),
                    ));
                    assert(carries(router_at(below, rest.take(back)), tag));
                }
            }
        }
    }
}

/// What is added to a node comes behind the security requirements that it has, joins its
/// tags, and leaves the rest of the node as it is.
pub proof fn annotation_only_adds(before: Router, after: Router, added: MetadataView)
    requires
        annotated(before, after, added),
    ensures
        after.filters == before.filters,
        after.routers == before.routers,
        after.hoops == before.hoops,
        after.goal == before.goal,
        own_securities(after) == own_securities(before) + added.securities,
        forall|tag: Seq<char>| #[trigger]
            carries(after, tag) <==> carries(before, tag) || added.tags.contains(tag),
{
    assert(own_securities(after) =~= own_securities(before) + added.securities);
}

} // verus!
