use salvo_routing::filters::{self, Filter, FilterExt, MethodFilter};
use salvo_routing::http::Method;
use salvo_routing::normalize::normalize_oapi_path;
use salvo_routing::oapi::{
    Metadata, NormNode, PathItemType, RouteFilterMetadata, RouterExt, SecurityRequirement,
};
use salvo_routing::router::{Handler, Router};
use salvo_routing::tags::TagSet;

fn test_handler() -> Handler {
    Handler { type_id: 5, name: "test_handler" }
}

fn tags(metadata: &Metadata) -> Vec<&str> {
    metadata.tags.list().iter().map(String::as_str).collect()
}

#[test]
fn normalize_braced_path_constraints() {
    assert_eq!(normalize_oapi_path("/posts/{id}"), "/posts/{id}");
    assert_eq!(normalize_oapi_path("/posts/{id:num}"), "/posts/{id}");
    assert_eq!(
        normalize_oapi_path("/posts/{id:num(3..=10)}"),
        "/posts/{id}"
    );
    assert_eq!(normalize_oapi_path(r"/posts/{id|\d+}"), "/posts/{id}");
    assert_eq!(normalize_oapi_path("/posts/{id|[a-z]{2}}"), "/posts/{id}");
    assert_eq!(
        normalize_oapi_path("/posts/article_{id:num}"),
        "/posts/article_{id}"
    );
}

#[test]
fn normalize_complex_path_parameters() {
    assert_eq!(
        normalize_oapi_path(r"/files/{name|[a-z]{2,4}}.{ext}"),
        "/files/{name}.{ext}"
    );
    assert_eq!(
        normalize_oapi_path(r"/posts/{id:num(3..=10)}/article_{slug|[a-z]{2}}"),
        "/posts/{id}/article_{slug}"
    );
    assert_eq!(normalize_oapi_path(r"/items/{id|foo\}bar}"), "/items/{id}");
    assert_eq!(normalize_oapi_path("/archive/{**rest}"), "/archive/{rest}");
    assert_eq!(normalize_oapi_path("/archive/{*+rest}"), "/archive/{rest}");
    assert_eq!(normalize_oapi_path("/archive/{*?rest}"), "/archive/{rest}");
}

#[test]
fn norm_tree_collects_common_path_and_method_builders() {
    let router = Router::with_path("/users/{id:num}")
        .get(test_handler())
        .post(test_handler());

    let node = NormNode::new(&router, Metadata::default());

    assert_eq!(node.path.as_deref(), Some("/users/{id}"));
    assert_eq!(node.children.len(), 2);
    assert_eq!(node.children[0].method, Some(PathItemType::Get));
    assert_eq!(node.children[1].method, Some(PathItemType::Post));
    assert!(node.children.iter().all(|child| child.path.is_none()));
}

#[test]
fn composite_filters_remain_opaque_without_core_metadata() {
    let router = Router::new()
        .filter(filters::path("/combined").and(filters::get()))
        .goal(test_handler());

    let node = NormNode::new(&router, Metadata::default());

    assert!(node.path.is_none());
    assert!(node.method.is_none());
    assert!(node.handler_type_id.is_some());
}

#[test]
fn router_extensions_store_and_inherit_oapi_metadata() {
    let security = SecurityRequirement::new("oauth", ["read"]);
    let router = Router::new()
        .oapi_tag("root")
        .oapi_security(security.clone())
        .push(Router::new().oapi_tags(["child", "root"]))
        .push(Router::new());

    let attached = router
        .metadata
        .as_ref()
        .expect("metadata should be stored on the router");
    assert_eq!(attached.tags.list().iter().collect::<Vec<_>>(), ["root"]);
    assert_eq!(
        attached.securities.as_slice(),
        std::slice::from_ref(&security)
    );

    let node = NormNode::new(&router, Metadata::default());
    assert_eq!(
        node.children[0].metadata.tags.list().iter().collect::<Vec<_>>(),
        ["child", "root"]
    );
    assert_eq!(
        node.children[0].metadata.securities.as_slice(),
        std::slice::from_ref(&security)
    );
    assert_eq!(
        node.children[1].metadata.tags.list().iter().collect::<Vec<_>>(),
        ["root"]
    );
    assert_eq!(
        node.children[1].metadata.securities.as_slice(),
        std::slice::from_ref(&security)
    );
}

#[test]
fn normalizing_keeps_what_is_no_parameter() {
    assert_eq!(normalize_oapi_path(""), "");
    assert_eq!(normalize_oapi_path("/plain/}path"), "/plain/}path");
    assert_eq!(normalize_oapi_path("/a/{{b}}/{c:num}"), "/a/{{b}}/{c}");
    assert_eq!(normalize_oapi_path("/a/{b/{c:num"), "/a/{b/{c:num");
    assert_eq!(normalize_oapi_path("/a/{b|\\}"), "/a/{b|\\}");
    assert_eq!(normalize_oapi_path("/a/{}"), "/a/{}");
    assert_eq!(normalize_oapi_path("/a/{*x}"), "/a/{x}");
    assert_eq!(normalize_oapi_path("/a/{***x}"), "/a/{*x}");
    assert_eq!(normalize_oapi_path("/\u{e9}/{\u{fc}|.}"), "/\u{e9}/{\u{fc}}");
}

#[test]
fn methods_map_to_operations() {
    for (method, operation) in [
        (Method::GET, Some(PathItemType::Get)),
        (Method::POST, Some(PathItemType::Post)),
        (Method::PUT, Some(PathItemType::Put)),
        (Method::DELETE, Some(PathItemType::Delete)),
        (Method::HEAD, Some(PathItemType::Head)),
        (Method::OPTIONS, Some(PathItemType::Options)),
        (Method::TRACE, Some(PathItemType::Trace)),
        (Method::PATCH, Some(PathItemType::Patch)),
        (Method::CONNECT, None),
        (Method::Extension(String::from("PURGE")), None),
    ] {
        let router = Router::with_filter(MethodFilter(method));
        assert_eq!(RouteFilterMetadata::collect(&router).method, operation);
    }
}

#[test]
fn the_last_known_method_and_path_are_shown() {
    let router = Router::with_path("a")
        .filter(filters::get())
        .filter(filters::put())
        .filter(MethodFilter(Method::CONNECT))
        .filter(MethodFilter(Method::Extension(String::from("PURGE"))))
        .filter(filters::path("b/{c:num}"))
        .filter(filters::port(80));
    let route = RouteFilterMetadata::collect(&router);
    assert_eq!(route.method, Some(PathItemType::Put));
    assert_eq!(route.path.as_deref(), Some("b/{c}"));
    assert!(router.filters()[5].is_sync());
}

#[test]
fn the_goal_is_shown_by_its_type() {
    let node = NormNode::new(&Router::new().goal(test_handler()), Metadata::default());
    assert_eq!(node.handler_type_id, Some(5));
    assert_eq!(node.handler_type_name, Some("test_handler"));
    let node = NormNode::new(&Router::new(), Metadata::default());
    assert_eq!(node.handler_type_id, None);
    assert_eq!(node.handler_type_name, None);
    assert!(node.children.is_empty());
}

#[test]
fn metadata_reaches_every_descendant() {
    let a = SecurityRequirement::new("a", vec!["r", "w"]);
    let b = SecurityRequirement::new(String::from("b"), Vec::<String>::new());
    let router = Router::new()
        .oapi_securities([a.clone(), b.clone()])
        .oapi_tags(vec![String::from("z"), String::from("m"), String::from("z")])
        .push(
            Router::new()
                .oapi_tag("a")
                .push(Router::new().oapi_security(a.clone())),
        );
    let node = NormNode::new(&router, Metadata::default());
    assert_eq!(tags(&node.metadata), vec!["m", "z"]);
    assert_eq!(node.metadata.securities, vec![a.clone(), b.clone()]);
    let child = &node.children[0];
    assert_eq!(tags(&child.metadata), vec!["a", "m", "z"]);
    let end = &child.children[0];
    assert_eq!(tags(&end.metadata), vec!["a", "m", "z"]);
    assert_eq!(end.metadata.securities, vec![a.clone(), b.clone(), a.clone()]);
    assert_eq!(a.scopes, vec!["r", "w"]);
    let mut inherited = Metadata::default();
    inherited.securities.push(b.clone());
    let node = NormNode::new(&Router::new().oapi_security(a.clone()), inherited);
    assert_eq!(node.metadata.securities, vec![b, a]);
}

#[test]
fn tags_are_listed_in_order_and_once() {
    let mut set = TagSet::new();
    for tag in ["b", "a", "ab", "", "b", "\u{e9}", "B", "a"] {
        set = set.with(String::from(tag));
    }
    let sorted: Vec<String> = ["", "B", "a", "ab", "b", "\u{e9}"]
        .iter()
        .map(|tag| tag.to_string())
        .collect();
    assert_eq!(set.list(), &sorted);
    let again = TagSet::default().with_all(set.list());
    assert_eq!(again, set);
    assert_eq!(set.clone(), set);
    let std_order: std::collections::BTreeSet<String> = sorted.iter().cloned().collect();
    assert_eq!(&std_order.into_iter().collect::<Vec<_>>(), set.list());
}
