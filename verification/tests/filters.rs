use salvo_routing::filters::{
    delete, get, head, host, options, patch, path, port, post, put, scheme, try_path, Deferred,
    Filter, FilterBox, FilterExt, FilterInfo, FnFilter, MethodFilter, Pause, Progress, Side,
};
use salvo_routing::http::{Method, Request, Scheme};
use salvo_routing::path_state::PathState;

/// What the outside tests say: only the one with the key 1 passes.
fn answer_of(key: usize) -> bool {
    key == 1
}

/// A filter that waits for an outside test that says `value`.
fn outside(value: bool) -> Deferred {
    Deferred { key: if value { 1 } else { 0 } }
}

/// Runs a filter to its answer, with the outside tests of [`answer_of`].
fn run<F: Filter>(filter: &F, req: &mut Request, path: &mut PathState) -> bool {
    let mut progress = filter.filter(req, path);
    loop {
        match progress {
            Progress::Done(matched) => return matched,
            Progress::Await(pause) => {
                let answer = answer_of(pause.key);
                progress = filter.resume(pause, answer, req, path);
            }
        }
    }
}

/// A synchronous filter whose other entry point must never be used by a composite
/// filter.
struct SyncOnlyValue(bool);

impl Filter for SyncOnlyValue {
    fn kind_name(&self) -> &'static str {
        "SyncOnlyValue"
    }
    fn info(&self) -> FilterInfo {
        FilterInfo::Other(self.kind_name())
    }
    fn static_path_segment(&self) -> Option<&str> {
        None
    }
    fn is_sync(&self) -> bool {
        true
    }
    fn filter_sync(&self, _req: &mut Request, _path: &mut PathState) -> bool {
        self.0
    }
    fn filter(&self, _req: &mut Request, _path: &mut PathState) -> Progress {
        panic!("synchronous child was evaluated through its other entry point")
    }
    fn resume(
        &self,
        _pause: Pause,
        _answer: bool,
        _req: &mut Request,
        _path: &mut PathState,
    ) -> Progress {
        panic!("synchronous child was resumed")
    }
}

impl FilterExt for SyncOnlyValue {
    fn boxed(self) -> FilterBox {
        FilterBox(Box::new(self))
    }
}

fn always(req: Request, path: PathState) -> (bool, Request, PathState) {
    (true, req, path)
}

#[test]
fn test_methods() {
    assert_eq!(get(), MethodFilter(Method::GET));
    assert_eq!(head(), MethodFilter(Method::HEAD));
    assert_eq!(options(), MethodFilter(Method::OPTIONS));
    assert_eq!(post(), MethodFilter(Method::POST));
    assert_eq!(patch(), MethodFilter(Method::PATCH));
    assert_eq!(put(), MethodFilter(Method::PUT));
    assert_eq!(delete(), MethodFilter(Method::DELETE));
    assert!(get().is_sync());
}

#[test]
fn built_in_filters_expose_the_sync_entry_point() {
    let filters: Vec<Box<dyn Filter>> = vec![
        Box::new(path("users")),
        Box::new(get()),
        Box::new(scheme(Scheme::HTTP)),
        Box::new(host("example.com")),
        Box::new(port(80)),
        Box::new(FnFilter(always)),
    ];
    assert!(filters.iter().all(|filter| filter.is_sync()));
    assert_eq!(path("users").static_path_segment(), Some("users"));
    assert_eq!(
        path("users").and(get()).static_path_segment(),
        Some("users")
    );
    assert!(path("users")
        .or(path("fallback"))
        .static_path_segment()
        .is_none());
    assert!(path("users")
        .or_else(|req, path| (true, req, path))
        .static_path_segment()
        .is_none());
}

#[test]
fn mixed_composites_prefer_sync_child_entry_points() {
    let mut req = Request::default();
    let mut path_state = PathState::from_borrowed_path("one");

    let nested_sync = SyncOnlyValue(true).and(SyncOnlyValue(true));
    assert!(nested_sync.is_sync());
    assert!(nested_sync.filter_sync(&mut req, &mut path_state));

    let mixed_and = nested_sync.and(outside(true));
    assert!(!mixed_and.is_sync());
    assert!(run(&mixed_and, &mut req, &mut path_state));

    let mixed_or = outside(false).or(SyncOnlyValue(true));
    assert!(!mixed_or.is_sync());
    assert!(run(&mixed_or, &mut req, &mut path_state));

    let sync_and_then = SyncOnlyValue(true).and_then(|req, path| (true, req, path));
    assert!(sync_and_then.is_sync());
    assert!(sync_and_then.filter_sync(&mut req, &mut path_state));

    let mixed_or_else = outside(false).or_else(|req, path| (true, req, path));
    assert!(!mixed_or_else.is_sync());
    assert!(run(&mixed_or_else, &mut req, &mut path_state));
}

#[test]
fn test_opts() {
    fn has_one(req: Request, path: PathState) -> (bool, Request, PathState) {
        (path.parts().iter().any(|part| part == "one"), req, path)
    }
    fn has_two(req: Request, path: PathState) -> (bool, Request, PathState) {
        (path.parts().iter().any(|part| part == "two"), req, path)
    }

    let one_filter = FnFilter(has_one);
    let two_filter = FnFilter(has_two);

    let mut req = Request::default();
    let mut path_state = PathState::from_borrowed_path("http://localhost/one");
    assert!(run(&one_filter, &mut req, &mut path_state));
    assert!(!run(&two_filter, &mut req, &mut path_state));
    assert!(run(&one_filter.or_else(has_two), &mut req, &mut path_state));
    assert!(run(&one_filter.or(two_filter), &mut req, &mut path_state));
    assert!(!run(&one_filter.and_then(has_two), &mut req, &mut path_state));
    assert!(!run(&one_filter.and(two_filter), &mut req, &mut path_state));

    let mut path_state = PathState::from_borrowed_path("http://localhost/one/two");
    assert!(run(&one_filter, &mut req, &mut path_state));
    assert!(run(&two_filter, &mut req, &mut path_state));
    assert!(run(&one_filter.or_else(has_two), &mut req, &mut path_state));
    assert!(run(&one_filter.or(two_filter), &mut req, &mut path_state));
    assert!(run(&one_filter.and_then(has_two), &mut req, &mut path_state));
    assert!(run(&one_filter.and(two_filter), &mut req, &mut path_state));

    let mut path_state = PathState::from_borrowed_path("http://localhost/two");
    assert!(!run(&one_filter, &mut req, &mut path_state));
    assert!(run(&two_filter, &mut req, &mut path_state));
    assert!(run(&one_filter.or_else(has_two), &mut req, &mut path_state));
    assert!(run(&one_filter.or(two_filter), &mut req, &mut path_state));
    assert!(!run(&one_filter.and_then(has_two), &mut req, &mut path_state));
    assert!(!run(&one_filter.and(two_filter), &mut req, &mut path_state));
}

#[test]
fn filters_read_the_request() {
    let mut path_state = PathState::default();
    let mut req = Request::new(Method::PUT, String::from("a"));
    assert!(run(&put(), &mut req, &mut path_state));
    assert!(!run(&get(), &mut req, &mut path_state));
    assert!(!run(&scheme(Scheme::HTTP), &mut req, &mut path_state));
    assert!(!run(&host("example.com"), &mut req, &mut path_state));
    assert!(!run(&port(80), &mut req, &mut path_state));

    req.scheme = Some(Scheme::Other(String::from("ftp")));
    req.host = Some(String::from("example.com"));
    req.port = Some(8080);
    req.method = Method::Extension(String::from("PURGE"));
    assert!(run(
        &scheme(Scheme::Other(String::from("ftp"))),
        &mut req,
        &mut path_state
    ));
    assert!(!run(&scheme(Scheme::HTTPS), &mut req, &mut path_state));
    assert!(run(&host("example.com"), &mut req, &mut path_state));
    assert!(!run(&host("example.org"), &mut req, &mut path_state));
    assert!(run(&port(8080), &mut req, &mut path_state));
    assert!(!run(&port(80), &mut req, &mut path_state));
    assert!(run(
        &MethodFilter(Method::Extension(String::from("PURGE"))),
        &mut req,
        &mut path_state
    ));
    assert!(!run(
        &MethodFilter(Method::Extension(String::from("LINK"))),
        &mut req,
        &mut path_state
    ));
    assert_eq!(path_state, PathState::default());
}

#[test]
fn filters_describe_themselves() {
    assert!(matches!(path("a/{b}").info(), FilterInfo::Path(p) if p == "a/{b}"));
    assert!(matches!(get().info(), FilterInfo::Method(Method::GET)));
    assert!(matches!(
        scheme(Scheme::HTTPS).info(),
        FilterInfo::Scheme(Scheme::HTTPS)
    ));
    assert!(matches!(host("h").info(), FilterInfo::Host(h) if h == "h"));
    assert!(matches!(port(7).info(), FilterInfo::Port(7)));
    assert!(matches!(
        get().and(post()).info(),
        FilterInfo::Other("And")
    ));
    assert!(matches!(get().or(post()).info(), FilterInfo::Other("Or")));
    assert!(matches!(
        get().and_then(always).info(),
        FilterInfo::Other("AndThen")
    ));
    assert!(matches!(
        get().or_else(always).info(),
        FilterInfo::Other("OrElse")
    ));
    assert!(matches!(
        FnFilter(always).info(),
        FilterInfo::Other("FnFilter")
    ));
    assert_eq!(get().and(post()).kind_name(), "And");
    assert_eq!(get().or(post()).kind_name(), "Or");
    assert_eq!(outside(true).kind_name(), "Deferred");
    assert_eq!(path("a").boxed().kind_name(), "PathFilter");
    assert_eq!(FnFilter(always).label(), "fn:fn");
    assert_eq!(get().and_then(always).label(), "opt:and_then");
    assert_eq!(get().or_else(always).label(), "opt:or_else");
}

#[test]
fn composites_wait_inside_their_parts() {
    let mut req = Request::default();
    let mut state = PathState::default();
    let filter = get().and(outside(true).or(outside(false))).and(outside(true));
    let first = match filter.filter(&mut req, &mut state) {
        Progress::Await(pause) => pause,
        Progress::Done(_) => panic!("the first outside test has not answered"),
    };
    assert_eq!(first.key, 1);
    assert_eq!(first.at, vec![Side::First, Side::Second, Side::First]);
    // The first outside test fails, so the second part of the inner `or` is asked.
    let second = match filter.resume(first, false, &mut req, &mut state) {
        Progress::Await(pause) => pause,
        Progress::Done(_) => panic!("the second outside test has not answered"),
    };
    assert_eq!(second.key, 0);
    assert_eq!(second.at, vec![Side::Second, Side::Second, Side::First]);
    let third = match filter.resume(second, true, &mut req, &mut state) {
        Progress::Await(pause) => pause,
        Progress::Done(_) => panic!("the last outside test has not answered"),
    };
    assert_eq!(third.key, 1);
    assert_eq!(third.at, vec![Side::Second]);
    assert!(matches!(
        filter.resume(third, true, &mut req, &mut state),
        Progress::Done(true)
    ));
}

#[test]
fn callbacks_change_the_request_and_the_path() {
    let mut req = Request::default();
    let mut state = PathState::from_borrowed_path("a");
    let filter = get().and_then(|mut req: Request, mut path: PathState| {
        req.port = Some(1);
        path.params.insert("seen", String::from("yes"));
        (true, req, path)
    });
    assert!(filter.filter_sync(&mut req, &mut state));
    assert_eq!(req.port, Some(1));
    assert_eq!(state.params.get("seen").map(String::as_str), Some("yes"));
}

#[test]
fn boxed_filters_act_like_the_filter() {
    let mut req = Request::default();
    let mut state = PathState::from_borrowed_path("users/7");
    let boxed = path("users/{id:num}").boxed();
    assert!(boxed.is_sync());
    assert_eq!(boxed.static_path_segment(), Some("users"));
    assert!(boxed.filter_sync(&mut req, &mut state));
    assert_eq!(state.params.get("id").map(String::as_str), Some("7"));
}

#[test]
fn malformed_patterns_are_refused_by_name() {
    assert_eq!(
        try_path("a/{b").err().as_deref(),
        Some("malformed path pattern: a/{b")
    );
    assert_eq!(
        try_path(String::from("{**rest}/more")).err().as_deref(),
        Some("malformed path pattern: {**rest}/more")
    );
    for pattern in [
        "{}",
        "a}b",
        "{id|[0-9]}",
        "{:num}",
        "{a:}",
        "{a:hex}",
        "{a:num()}",
        "{a:num(..)}",
        "{a:num(3.5)}",
        "{a:num(5..3)}",
        "{a:num(5..5)}",
        "{a:num(x)}",
        "{a:num(99999999999999999999999)}",
        "{*a:num}",
        "x{*a}",
        "{a{b}",
        "{a}{",
    ] {
        assert!(try_path(pattern).is_err(), "{pattern}");
        let mut req = Request::default();
        let mut state = PathState::from_borrowed_path("a");
        assert!(!path(pattern).filter_sync(&mut req, &mut state));
        assert!(path(pattern).static_path_segment().is_none());
        assert_eq!(state, PathState::from_borrowed_path("a"));
    }
    for pattern in [
        "",
        "/",
        "a",
        "/a//b/",
        "{a}",
        "{a:num}",
        "{a:num(3..=10)}",
        "article_{id:num}",
        "{name}.{ext}",
        "{*a}",
        "{**}",
        "{*+a}",
        "{*?a}",
        "{{a}}",
    ] {
        assert!(try_path(pattern).is_ok(), "{pattern}");
    }
}
