use std::sync::Arc;

use salvo_routing::compiled_router::CompiledRouter;
use salvo_routing::detect::{DetectFrame, Detection};
use salvo_routing::dispatch::{first_static_segment, CandidateIter, ChildDispatch};
use salvo_routing::filter_plan::{FilterExecPlan, Matching};
use salvo_routing::filters::{
    get, path, post, Deferred, Filter, FilterBox, FilterExt, FnFilter,
};
use salvo_routing::http::{Method, Request};
use salvo_routing::path_state::PathState;
use salvo_routing::plan::CompiledNode;
use salvo_routing::router::{DetectMatched, Handler, Router};

fn handler(type_id: u64, name: &'static str) -> Handler {
    Handler { type_id, name }
}

fn goal() -> Handler {
    handler(1, "goal")
}

/// Runs a detection to its end. The outside test with the key `k` says `answers[k]`,
/// and the keys are noted in the order in which they are asked.
fn finish(
    mut detection: Detection<'_>,
    answers: &[bool],
    asked: &mut Vec<usize>,
    req: &mut Request,
    state: &mut PathState,
) -> Option<DetectMatched> {
    loop {
        match detection {
            Detection::Done(matched) => return matched,
            Detection::Await(pending) => {
                let key = pending.key();
                asked.push(key);
                detection = pending.resume(answers[key], req, state);
            }
        }
    }
}

fn detected(
    compiled: &CompiledRouter,
    req: &mut Request,
    state: &mut PathState,
) -> Option<DetectMatched> {
    let detection = compiled.detect(req, state);
    finish(detection, &[], &mut Vec::new(), req, state)
}

fn request(method: Method, target: &str) -> (Request, PathState) {
    (
        Request::new(method, String::from(target)),
        PathState::from_owned_path(String::from(target)),
    )
}

#[test]
fn preserves_dynamic_before_static_registration_order() {
    let router = Router::new()
        .push(Router::with_path("miss-0").goal(goal()))
        .push(Router::with_path("miss-1").goal(goal()))
        .push(Router::with_path("miss-2").goal(goal()))
        .push(Router::with_path("miss-3").goal(goal()))
        .push(Router::with_path("{dynamic}").goal(goal()))
        .push(Router::with_path("miss-5").goal(goal()))
        .push(Router::with_path("miss-6").goal(goal()))
        .push(Router::with_path("target").goal(goal()))
        .push(Router::with_path("miss-8").goal(goal()));
    let compiled = CompiledRouter::new(router);
    let (mut req, mut state) = request(Method::GET, "/target");

    assert!(detected(&compiled, &mut req, &mut state).is_some());
    assert_eq!(
        state.params.get("dynamic").map(String::as_str),
        Some("target")
    );
}

#[test]
fn narrow_router_does_not_retain_a_parallel_plan() {
    let router = Router::new().push(Router::with_path("health").goal(goal()));
    let compiled = CompiledRouter::new(router);

    assert!(!compiled.uses_indexed_dispatch());
}

#[test]
fn rolls_back_failed_indexed_candidate_params() {
    let mut router = Router::new();
    for index in 0..8 {
        router = router.push(Router::with_path(format!("static-{index}")).goal(goal()));
    }
    router = router
        .push(Router::with_path("{failed}/profile").goal(goal()))
        .push(Router::with_path("{matched}").goal(goal()));

    let compiled = CompiledRouter::new(router);
    let (mut req, mut state) = request(Method::GET, "/alice");

    assert!(detected(&compiled, &mut req, &mut state).is_some());
    assert!(!state.params.contains_key("failed"));
    assert_eq!(
        state.params.get("matched").map(String::as_str),
        Some("alice")
    );
}

#[test]
fn indexed_dispatch_preserves_async_generic_and_mixed_filters() {
    let generic: usize = 0;
    let target: usize = 1;
    let answers = [false, true];
    let mut router = Router::new();
    for index in 0..8 {
        router = router.push(Router::with_path(format!("static-{index}")).goal(goal()));
    }
    router = router
        .push(Router::with_filter(Deferred { key: generic }).goal(goal()))
        .push(Router::with_filter(path("target").and(Deferred { key: target })).goal(goal()));

    let compiled = CompiledRouter::new(router);
    let (mut req, mut state) = request(Method::GET, "/target");
    let mut asked = Vec::new();
    let detection = compiled.detect(&mut req, &mut state);

    assert!(finish(detection, &answers, &mut asked, &mut req, &mut state).is_some());
    assert_eq!(asked.iter().filter(|key| **key == generic).count(), 1);
    assert_eq!(asked.iter().filter(|key| **key == target).count(), 1);
    assert_eq!(asked, vec![generic, target]);
}

#[test]
fn indexed_detection_matches_router_state_and_result() {
    fn build_router() -> Router {
        let mut router = Router::new().hoop(goal());
        for index in 0..8 {
            router = router.push(Router::with_path(format!("miss-{index}")).goal(goal()));
        }
        router
            .push(Router::with_path("{failed}/profile").goal(goal()))
            .push(Router::with_path("target/{id}").get(goal()))
    }

    fn compare(method: Method, expected: bool) {
        let router = Arc::new(build_router());
        let compiled = CompiledRouter::new(router.clone());
        assert!(compiled.uses_indexed_dispatch());

        let (mut source_req, mut source_state) = request(method.clone(), "/target/alice");
        let (mut compiled_req, mut compiled_state) = request(method, "/target/alice");
        let source = router.detect(&mut source_req, &mut source_state);
        let source_match = finish(
            source,
            &[],
            &mut Vec::new(),
            &mut source_req,
            &mut source_state,
        );
        let compiled_match = detected(&compiled, &mut compiled_req, &mut compiled_state);

        assert_eq!(source_match.is_some(), compiled_match.is_some());
        assert_eq!(source_match.is_some(), expected);
        if let (Some(source_match), Some(compiled_match)) = (source_match, compiled_match) {
            assert_eq!(source_match.goal.name, compiled_match.goal.name);
            assert_eq!(source_match.hoops.len(), compiled_match.hoops.len());
            assert!(source_match
                .hoops
                .iter()
                .zip(&compiled_match.hoops)
                .all(|(source, compiled)| source.name == compiled.name));
        }
        assert_eq!(source_state, compiled_state);
        assert_eq!(source_req, compiled_req);
    }

    compare(Method::GET, true);
    compare(Method::POST, false);
}

#[test]
fn compiled_routers_keep_their_source() {
    let router = Arc::new(Router::with_path("a").goal(goal()));
    let compiled = CompiledRouter::from(router.clone());
    assert!(Arc::ptr_eq(&router, &compiled.router_arc()));
    assert_eq!(compiled.router().filters().len(), 1);
    let compiled = CompiledRouter::from(Router::new().get(goal()).post(handler(2, "post")));
    assert_eq!(compiled.router().routers().len(), 2);
    assert!(compiled.router().filters().is_empty());
}

#[test]
fn middleware_is_collected_from_the_root_down() {
    let router = Router::new()
        .hoop(handler(10, "outer"))
        .hoop(handler(11, "second"))
        .push(
            Router::with_path("a")
                .hoop(handler(12, "inner"))
                .push(Router::with_path("b").goal(handler(13, "end"))),
        );
    let compiled = CompiledRouter::new(router);
    let (mut req, mut state) = request(Method::GET, "a/b");
    let matched = detected(&compiled, &mut req, &mut state).expect("the route is there");
    let names: Vec<&str> = matched.hoops.iter().map(|hoop| hoop.name).collect();
    assert_eq!(names, vec!["outer", "second", "inner"]);
    assert_eq!(*matched.goal, handler(13, "end"));
    assert!(state.once_ended);
    assert_eq!(state.matched_parts, vec!["a", "b"]);
}

#[test]
fn the_first_registered_route_wins() {
    let router = Router::new()
        .push(Router::with_path("a").goal(handler(1, "first")))
        .push(Router::with_path("{any}").goal(handler(2, "second")));
    let compiled = CompiledRouter::new(router);
    let (mut req, mut state) = request(Method::GET, "a");
    let matched = detected(&compiled, &mut req, &mut state).expect("the route is there");
    assert_eq!(matched.goal.name, "first");
    let (mut req, mut state) = request(Method::GET, "b");
    let matched = detected(&compiled, &mut req, &mut state).expect("the route is there");
    assert_eq!(matched.goal.name, "second");
}

#[test]
fn children_come_before_the_goal_of_a_node() {
    let router = Router::with_path("a")
        .goal(handler(1, "own"))
        .push(Router::with_filter(post()).goal(handler(2, "child")));
    let compiled = CompiledRouter::new(router);
    let (mut req, mut state) = request(Method::POST, "a");
    assert_eq!(
        detected(&compiled, &mut req, &mut state).map(|m| m.goal.name),
        Some("child")
    );
    let (mut req, mut state) = request(Method::GET, "a");
    assert_eq!(
        detected(&compiled, &mut req, &mut state).map(|m| m.goal.name),
        Some("own")
    );
}

#[test]
fn a_path_that_goes_on_reaches_no_goal() {
    let compiled = CompiledRouter::new(Router::with_path("a").goal(goal()));
    let (mut req, mut state) = request(Method::GET, "a/b");
    assert!(detected(&compiled, &mut req, &mut state).is_none());
    assert!(!state.once_ended);
    let (mut req, mut state) = request(Method::GET, "c");
    assert!(detected(&compiled, &mut req, &mut state).is_none());
}

#[test]
fn reaching_the_end_without_a_goal_is_remembered() {
    let leaf = Router::with_path("b").goal(goal());
    let router = Router::new().push(Router::with_path("a").push(leaf));
    let compiled = CompiledRouter::new(router);
    let (mut req, mut state) = request(Method::GET, "a");
    assert!(detected(&compiled, &mut req, &mut state).is_none());
    assert!(state.once_ended);
    assert_eq!(state.cursor, (0, 0));
    assert!(state.matched_parts.is_empty());
}

#[test]
fn wide_nodes_are_searched_like_narrow_ones() {
    for count in [7, 8, 16, 100] {
        let mut parent = Router::with_path("api");
        for index in 0..count {
            parent = parent.push(Router::with_path(format!("res{index:03}")).goal(goal()));
        }
        let router = Arc::new(Router::new().push(parent));
        let compiled = CompiledRouter::new(router.clone());
        assert_eq!(compiled.uses_indexed_dispatch(), count >= 8);
        for target in [
            format!("api/res{:03}", count - 1),
            String::from("api/res999"),
            String::from("api"),
        ] {
            let (mut req, mut state) = request(Method::GET, &target);
            let (mut req2, mut state2) = request(Method::GET, &target);
            let by_plan = detected(&compiled, &mut req, &mut state);
            let detection = router.detect(&mut req2, &mut state2);
            let by_tree = finish(detection, &[], &mut Vec::new(), &mut req2, &mut state2);
            assert_eq!(by_plan, by_tree);
            assert_eq!(state, state2);
            assert_eq!(by_plan.is_some(), target.ends_with(&format!("{:03}", count - 1)));
        }
    }
}

#[test]
fn deep_trees_backtrack_over_captures() {
    let router = Router::new().push(
        Router::with_path("users")
            .push(Router::with_path("{id}/profile").goal(handler(1, "profile")))
            .push(Router::with_path("{id}/settings").goal(handler(2, "settings")))
            .push(Router::with_path("{name}").goal(handler(3, "name"))),
    );
    let compiled = CompiledRouter::new(router);
    let (mut req, mut state) = request(Method::GET, "/users/alice");
    let matched = detected(&compiled, &mut req, &mut state).expect("the route is there");
    assert_eq!(matched.goal.name, "name");
    assert_eq!(state.params.len(), 1);
    assert_eq!(state.params.get("name").map(String::as_str), Some("alice"));
    let (mut req, mut state) = request(Method::GET, "/users/alice/settings");
    let matched = detected(&compiled, &mut req, &mut state).expect("the route is there");
    assert_eq!(matched.goal.name, "settings");
    assert_eq!(state.params.get("id").map(String::as_str), Some("alice"));
}

#[test]
fn outside_tests_are_asked_in_the_same_order_by_plan_and_tree() {
    let mut router = Router::with_filter(Deferred { key: 0 });
    for index in 0..9 {
        router = router.push(Router::with_path(format!("static-{index}")).goal(goal()));
    }
    router = router
        .push(
            Router::with_filter(Deferred { key: 1 })
                .push(Router::with_filter(get().and(Deferred { key: 2 })).goal(goal())),
        )
        .push(Router::with_filter(path("{**all}").and(Deferred { key: 3 })).goal(goal()));
    let router = Arc::new(router);
    let compiled = CompiledRouter::new(router.clone());
    assert!(compiled.uses_indexed_dispatch());
    let answers = [true, true, false, true];
    let (mut req, mut state) = request(Method::GET, "x/y");
    let mut by_plan = Vec::new();
    let detection = compiled.detect(&mut req, &mut state);
    let plan_match = finish(detection, &answers, &mut by_plan, &mut req, &mut state);
    let (mut req2, mut state2) = request(Method::GET, "x/y");
    let mut by_tree = Vec::new();
    let detection = router.detect(&mut req2, &mut state2);
    let tree_match = finish(detection, &answers, &mut by_tree, &mut req2, &mut state2);
    assert!(plan_match.is_some());
    assert_eq!(plan_match, tree_match);
    assert_eq!(by_plan, vec![0, 1, 2, 3]);
    assert_eq!(by_plan, by_tree);
    assert_eq!(state, state2);
    assert_eq!(state.params.get("all").map(String::as_str), Some("x/y"));
}

#[test]
fn the_plan_notes_which_filters_never_wait() {
    let mut filters: Vec<FilterBox> = vec![
        get().boxed(),
        Deferred { key: 0 }.boxed(),
        path("{a}").boxed(),
    ];
    assert_eq!(FilterExecPlan::compile(&filters).sync_mask, 0b101);
    while filters.len() < 70 {
        filters.push(FnFilter(|req, path| (true, req, path)).boxed());
    }
    let plan = FilterExecPlan::compile(&filters);
    assert_eq!(plan.sync_mask, u64::MAX - 0b10);
    let (mut req, mut state) = request(Method::GET, "v");
    let stop = match plan.matches(&filters, &mut req, &mut state) {
        Matching::Await(stop) => stop,
        Matching::Done(_) => panic!("the outside test has not answered"),
    };
    assert_eq!((stop.index, stop.pause.key), (1, 0));
    assert!(matches!(
        plan.resume(&filters, stop, true, &mut req, &mut state),
        Matching::Done(true)
    ));
    assert_eq!(state.params.get("a").map(String::as_str), Some("v"));
}

#[test]
fn children_are_indexed_by_their_first_static_segment() {
    let mut children: Vec<Router> = Vec::new();
    for index in 0..7 {
        children.push(Router::with_path(format!("s{}", index % 2)));
    }
    assert!(!ChildDispatch::should_index(&children));
    assert!(matches!(
        ChildDispatch::compile(&children),
        ChildDispatch::Linear { len: 7 }
    ));
    children.insert(1, Router::new());
    children.push(Router::with_path("s0/{x}"));
    assert!(ChildDispatch::should_index(&children));
    assert_eq!(first_static_segment(&children[8]), Some("s0"));
    assert_eq!(first_static_segment(&children[1]), None);
    let dispatch = ChildDispatch::compile(&children);
    let listed = |target: &str| {
        let state = PathState::from_borrowed_path(target);
        let mut iter = dispatch.candidates(&state);
        let mut list = Vec::new();
        while let Some(index) = iter.next() {
            list.push(index);
        }
        list
    };
    assert_eq!(listed("s0"), vec![0, 1, 3, 5, 7, 8]);
    assert_eq!(listed("s1"), vec![1, 2, 4, 6]);
    assert_eq!(listed("other"), vec![1]);
    assert_eq!(listed(""), vec![1]);
    let mut all = CandidateIter::all(2);
    assert_eq!(
        (all.next(), all.next(), all.next()),
        (Some(0), Some(1), None)
    );
    assert!(CompiledNode::contains_index(
        &Router::new().push(Router {
            filters: Vec::new(),
            routers: children,
            hoops: Vec::new(),
            goal: None,
            metadata: None,
        })
    ));
}

#[test]
fn detection_comes_to_the_same_twice() {
    let mut router = Router::new().hoop(handler(9, "outer"));
    for index in 0..8 {
        router = router.push(Router::with_path(format!("p{index}/{{id:num}}")).goal(goal()));
    }
    let compiled = CompiledRouter::new(router.push(Router::with_path("{**rest}").get(goal())));
    for target in ["p3/17", "p3/x", "", "q"] {
        let (mut req, mut state) = request(Method::GET, target);
        let (mut req2, mut state2) = request(Method::GET, target);
        assert_eq!(
            detected(&compiled, &mut req, &mut state),
            detected(&compiled, &mut req2, &mut state2)
        );
        assert_eq!((req, state), (req2, state2));
    }
}

#[test]
fn plan_and_tree_may_part_where_a_filter_exchanges_the_path() {
    let mut router = Router::new().push(Router::with_filter(FnFilter(
        |req: Request, _path: PathState| (false, req, PathState::from_borrowed_path("s0")),
    )));
    for index in 0..8 {
        router = router.push(Router::with_path(format!("s{index}")).goal(goal()));
    }
    let router = Arc::new(router);
    let compiled = CompiledRouter::new(router.clone());
    let (mut req, mut state) = request(Method::GET, "other");
    assert!(detected(&compiled, &mut req, &mut state).is_none());
    let (mut req, mut state) = request(Method::GET, "other");
    let detection = router.detect(&mut req, &mut state);
    assert!(finish(detection, &[], &mut Vec::new(), &mut req, &mut state).is_some());
}

#[test]
fn the_index_has_a_list_for_declared_segments_only() {
    let mut children: Vec<Router> = Vec::new();
    for index in 0..9 {
        children.push(Router::with_path(format!("s{}", index % 3)));
    }
    children.insert(4, Router::with_path("{any}"));
    match ChildDispatch::compile(&children) {
        ChildDispatch::Indexed { exact, generic } => {
            assert_eq!(generic, vec![4]);
            assert_eq!(exact.get("s0"), Some(&vec![0, 3, 7]));
            assert_eq!(exact.get("s1"), Some(&vec![1, 5, 8]));
            assert_eq!(exact.get("s2"), Some(&vec![2, 6, 9]));
            assert_eq!(exact.get("s3"), None);
            assert_eq!(exact.get("nobody"), None);
            assert_eq!(exact.len(), 3);
        }
        ChildDispatch::Linear { .. } => panic!("nine children declare a segment"),
    }
}

#[test]
fn candidates_move_one_position_at_a_time() {
    let exact: Vec<usize> = vec![0, 5];
    let generic: Vec<usize> = vec![3];
    let mut iter = CandidateIter::Merged {
        exact: Some(&exact),
        generic: &generic,
        exact_pos: 0,
        generic_pos: 0,
    };
    for (candidate, positions) in [
        (Some(0), (1, 0)),
        (Some(3), (1, 1)),
        (Some(5), (2, 1)),
        (None, (2, 1)),
        (None, (2, 1)),
    ] {
        assert_eq!(iter.next(), candidate);
        match &iter {
            CandidateIter::Merged { exact_pos, generic_pos, .. } => {
                assert_eq!((*exact_pos, *generic_pos), positions);
            }
            CandidateIter::Linear { .. } => panic!("the variant stays"),
        }
    }
}

#[test]
fn frames_take_the_path_back_to_their_entry() {
    let router = Router::new();
    let mut state = PathState::from_borrowed_path("a/b/c");
    state.cursor = (1, 0);
    state.params.insert("x", String::from("1"));
    state.matched_parts.push(String::from("a"));
    let frame = DetectFrame::new(&router, None, &state);
    for _ in 0..2 {
        state.cursor = (3, 0);
        state.params.insert("x", String::from("2"));
        state.params.insert_rest("y", String::from("b/c"));
        state.matched_parts.push(String::from("{y}"));
        state.once_ended = true;
        frame.rollback(&mut state);
        frame.rollback(&mut state);
        assert_eq!(state.cursor, (1, 0));
        assert_eq!(state.params.get("x").map(String::as_str), Some("1"));
        assert_eq!(state.params.len(), 1);
        assert!(!state.params.greedy());
        assert_eq!(state.matched_parts, vec!["a"]);
        assert!(state.once_ended);
    }
}

#[test]
fn a_route_behind_a_refused_test_is_not_taken() {
    let router = Router::new()
        .push(Router::with_filter(get().and(Deferred { key: 0 })).goal(handler(1, "guarded")))
        .push(Router::with_filter(get()).goal(handler(2, "open")));
    let compiled = CompiledRouter::new(router);
    for (answer, name) in [(false, "open"), (true, "guarded")] {
        let (mut req, mut state) = request(Method::GET, "");
        let detection = compiled.detect(&mut req, &mut state);
        let mut asked = Vec::new();
        let matched = finish(detection, &[answer], &mut asked, &mut req, &mut state);
        assert_eq!(matched.map(|m| m.goal.name), Some(name));
        assert_eq!(asked, vec![0]);
    }
}

#[test]
fn compiling_a_child_gives_the_plan_that_its_parent_holds() {
    let child = |name: &'static str| {
        Router::with_filter(path(name).and(Deferred { key: 0 })).filter(get())
    };
    let parent = CompiledNode::compile(&Router::new().push(child("a")).push(Router::new()));
    let alone = CompiledNode::compile(&child("a"));
    assert_eq!(parent.children.len(), 2);
    assert_eq!(parent.children[0].filters.sync_mask, alone.filters.sync_mask);
    assert_eq!(alone.filters.sync_mask, 0b10);
    assert_eq!(parent.children[1].filters.sync_mask, 0);
    assert!(matches!(
        parent.children[0].dispatch,
        ChildDispatch::Linear { len: 0 }
    ));
    assert!(matches!(parent.dispatch, ChildDispatch::Linear { len: 2 }));
}

#[test]
fn a_waiting_detection_shows_the_walk_up_to_the_pause() {
    let mut wide = Router::with_path("users");
    for index in 0..8 {
        wide = wide.push(Router::with_path(format!("static-{index}")).goal(goal()));
    }
    let router = Arc::new(
        Router::new().push(
            wide.push(Router::with_path("{gone}/elsewhere").goal(goal())).push(
                Router::with_filter(path("{id}").and(Deferred { key: 4 }))
                    .push(Router::with_filter(Deferred { key: 5 }).goal(goal()))
                    .push(Router::with_path("posts").goal(handler(2, "posts"))),
            ),
        ),
    );
    let compiled = CompiledRouter::new(router.clone());
    assert!(compiled.uses_indexed_dispatch());
    for by_plan in [true, false] {
        let (mut req, mut state) = request(Method::GET, "/users/7/posts");
        let detection = if by_plan {
            compiled.detect(&mut req, &mut state)
        } else {
            router.detect(&mut req, &mut state)
        };
        let Detection::Await(pending) = detection else {
            panic!("the detection has to wait");
        };
        assert_eq!(pending.key(), 4);
        assert_eq!(req.method, Method::GET);
        assert_eq!(state.params.get("id").map(String::as_str), Some("7"));
        assert!(!state.params.contains_key("gone"));
        assert_eq!(state.cursor, (2, 0));
        assert_eq!(state.matched_parts, vec!["users", "{id}"]);
        assert!(!state.once_ended);

        let Detection::Await(pending) = pending.resume(true, &mut req, &mut state) else {
            panic!("the detection has to wait again");
        };
        assert_eq!(pending.key(), 5);
        assert_eq!(state.params.get("id").map(String::as_str), Some("7"));
        assert_eq!(state.cursor, (2, 0));
        assert_eq!(state.matched_parts, vec!["users", "{id}"]);

        let Detection::Done(matched) = pending.resume(false, &mut req, &mut state) else {
            panic!("the detection has to end");
        };
        assert_eq!(matched.map(|m| m.goal.name), Some("posts"));
        assert_eq!(state.matched_parts, vec!["users", "{id}", "posts"]);
        assert!(state.once_ended);
    }
}

#[test]
fn what_an_outside_test_leaves_is_what_the_detection_goes_on_with() {
    let router = Router::new().push(
        Router::with_filter(Deferred { key: 0 })
            .push(Router::with_path("old").goal(handler(1, "old")))
            .push(Router::with_path("new").filter(post()).goal(handler(2, "new"))),
    );
    let (mut req, mut state) = request(Method::GET, "/old");
    let Detection::Await(pending) = router.detect(&mut req, &mut state) else {
        panic!("the detection has to wait");
    };
    req.method = Method::POST;
    state = PathState::from_borrowed_path("new");
    let Detection::Done(matched) = pending.resume(true, &mut req, &mut state) else {
        panic!("the detection has to end");
    };
    assert_eq!(matched.map(|m| m.goal.name), Some("new"));
    assert_eq!(state.matched_parts, vec!["new"]);
}

#[test]
fn a_detection_that_finds_nothing_gives_the_path_back() {
    let mut router = Router::new();
    for index in 0..8 {
        router = router.push(Router::with_path(format!("static-{index}")).goal(goal()));
    }
    let router = Arc::new(
        router
            .push(Router::with_path("{a}/{b}").push(Router::with_path("c").goal(goal())))
            .push(Router::with_filter(path("{**rest}").and(Deferred { key: 0 })).goal(goal())),
    );
    let compiled = CompiledRouter::new(router.clone());
    for by_plan in [true, false] {
        let (mut req, mut state) = request(Method::GET, "/x/y");
        state.params.insert("kept", String::from("1"));
        let detection = if by_plan {
            compiled.detect(&mut req, &mut state)
        } else {
            router.detect(&mut req, &mut state)
        };
        let mut asked = Vec::new();
        let matched = finish(detection, &[false], &mut asked, &mut req, &mut state);
        assert!(matched.is_none());
        assert_eq!(asked, vec![0]);
        assert_eq!(state.cursor, (0, 0));
        assert_eq!(state.params.len(), 1);
        assert_eq!(state.params.get("kept").map(String::as_str), Some("1"));
        assert!(!state.params.greedy());
        assert!(state.matched_parts.is_empty());
        assert!(state.once_ended);
    }
}
