use salvo_routing::filters::{path, try_path, Filter};
use salvo_routing::http::Request;
use salvo_routing::path_state::{PathParams, PathState};

fn tried(pattern: &str, target: &str) -> (bool, PathState) {
    let mut req = Request::default();
    let mut state = PathState::from_borrowed_path(target);
    let matched = try_path(pattern)
        .expect("the pattern is well formed")
        .filter_sync(&mut req, &mut state);
    (matched, state)
}

fn captured(pattern: &str, target: &str, name: &str) -> Option<String> {
    let (matched, state) = tried(pattern, target);
    if matched {
        state.params.get(name).cloned()
    } else {
        None
    }
}

#[test]
fn paths_are_split_at_slashes() {
    let state = PathState::from_borrowed_path("//a/bc///d/");
    assert_eq!(state.parts(), &vec!["a", "bc", "d"]);
    assert!(state.end_slash);
    assert_eq!(state.pick(), Some("a"));
    assert!(!state.is_ended());
    let state = PathState::from_owned_path(String::from("/"));
    assert!(state.parts().is_empty());
    assert!(state.is_ended());
    assert_eq!(state.pick(), None);
    assert!(!PathState::from_borrowed_path("a").end_slash);
}

#[test]
fn the_cursor_can_stand_inside_a_part() {
    let mut state = PathState::from_borrowed_path("h\u{e9}llo/w");
    state.cursor = (0, 2);
    assert_eq!(state.pick(), Some("llo"));
    state.cursor = (0, 5);
    assert_eq!(state.pick(), Some("w"));
    state.cursor = (1, 1);
    assert_eq!(state.pick(), None);
    assert!(!state.is_ended());
}

#[test]
fn literal_segments_match_as_they_are() {
    let (matched, state) = tried("users/me", "users/me/more");
    assert!(matched);
    assert_eq!(state.cursor, (2, 0));
    assert_eq!(state.pick(), Some("more"));
    assert_eq!(state.matched_parts, vec!["users", "me"]);
    let (matched, state) = tried("users/me", "users/you");
    assert!(!matched);
    assert_eq!(state, PathState::from_borrowed_path("users/you"));
    assert!(tried("{{x}}", "{x}").0);
    assert_eq!(path("{{x}}").static_path_segment(), Some("{x}"));
    assert!(tried("", "anything").0);
}

#[test]
fn named_segments_are_captured() {
    let (matched, state) = tried("users/{id}/posts/{post}", "users/7/posts/8");
    assert!(matched);
    assert_eq!(state.params.len(), 2);
    assert_eq!(state.params.get("id").map(String::as_str), Some("7"));
    assert_eq!(state.params.get("post").map(String::as_str), Some("8"));
    assert_eq!(state.matched_parts, vec!["users", "{id}", "posts", "{post}"]);
    assert!(state.is_ended());
    assert_eq!(path("{id}").static_path_segment(), None);
}

#[test]
fn number_segments_take_digits_only() {
    assert_eq!(captured("{id:num}", "042", "id").as_deref(), Some("042"));
    assert_eq!(captured("{id:num}", "4x", "id"), None);
    assert_eq!(captured("{id:num}", "", "id"), None);
    assert_eq!(captured("{id:num}", "\u{661}", "id"), None);
}

#[test]
fn numbers_are_as_wide_as_the_pattern_says() {
    for (range, widths) in [
        ("(3)", vec![3]),
        ("(3..=5)", vec![3, 4, 5]),
        ("(3..6)", vec![3, 4, 5]),
        ("(..3)", vec![1, 2]),
        ("(..=3)", vec![1, 2, 3]),
        ("(4..)", vec![4, 5, 6, 7]),
        ("", vec![1, 2, 3, 4, 5, 6, 7]),
    ] {
        for width in 1..8 {
            let digits = "1234567".get(..width).expect("the digits suffice");
            let pattern = format!("{{id:num{range}}}");
            assert_eq!(
                captured(&pattern, digits, "id").is_some(),
                widths.contains(&width),
                "{pattern} {digits}"
            );
        }
    }
}

#[test]
fn segments_can_mix_text_and_parameters() {
    assert_eq!(captured("article_{id:num}", "article_12", "id").as_deref(), Some("12"));
    assert_eq!(captured("article_{id:num}", "article_", "id"), None);
    assert_eq!(captured("article_{id:num}", "article_1x", "id"), None);
    let (matched, state) = tried("{name}.{ext}/x", "a.b.c/x");
    assert!(matched);
    assert_eq!(state.params.get("name").map(String::as_str), Some("a.b"));
    assert_eq!(state.params.get("ext").map(String::as_str), Some("c"));
    assert_eq!(state.matched_parts, vec!["{name}.{ext}", "x"]);
    let (matched, state) = tried("{a:num(2)}{b:num}", "1234");
    assert!(matched);
    assert_eq!(state.params.get("a").map(String::as_str), Some("12"));
    assert_eq!(state.params.get("b").map(String::as_str), Some("34"));
    assert!(!tried("{name}.{ext}", ".c").0);
    assert_eq!(path("article_{id:num}").static_path_segment(), None);
    assert_eq!(captured("x{{{a}}}", "x{7}", "a").as_deref(), Some("7"));
}

#[test]
fn rest_segments_take_what_is_left() {
    assert_eq!(captured("a/{**r}", "a/b/c", "r").as_deref(), Some("b/c"));
    assert_eq!(captured("a/{*r}", "a/b/c/", "r").as_deref(), Some("b/c/"));
    assert_eq!(captured("a/{**r}", "a", "r").as_deref(), Some(""));
    assert_eq!(captured("a/{**r}", "a/", "r").as_deref(), Some(""));
    assert_eq!(captured("a/{*+r}", "a", "r"), None);
    assert_eq!(captured("a/{*+r}", "a/b", "r").as_deref(), Some("b"));
    assert_eq!(captured("a/{*?r}", "a", "r").as_deref(), Some(""));
    assert_eq!(captured("a/{*?r}", "a/b", "r").as_deref(), Some("b"));
    assert_eq!(captured("a/{*?r}", "a/b/c", "r"), None);
    let (matched, state) = tried("{**r}", "x/y");
    assert!(matched && state.params.greedy() && state.is_ended());
    assert_eq!(state.matched_parts, vec!["{r}"]);
}

#[test]
fn captures_of_a_failed_pattern_wait_for_the_rollback() {
    let mut req = Request::default();
    let mut state = PathState::from_borrowed_path("alice/x");
    let mark = state.params.snapshot();
    assert!(!path("{failed}/profile").filter_sync(&mut req, &mut state));
    assert_eq!(state.cursor, (0, 0));
    assert!(state.matched_parts.is_empty());
    assert_eq!(state.params.get("failed").map(String::as_str), Some("alice"));
    state.params.rollback(mark);
    assert_eq!(state, PathState::from_borrowed_path("alice/x"));
}

#[test]
fn rollback_brings_replaced_captures_back() {
    let mut params = PathParams::new();
    params.insert("a", String::from("1"));
    params.insert("b", String::from("2"));
    let mark = params.snapshot();
    params.insert("a", String::from("3"));
    params.insert("c", String::from("4"));
    params.insert("c", String::from("5"));
    params.insert_rest("d", String::from("6"));
    assert_eq!(params.len(), 4);
    assert_eq!(params.get("a").map(String::as_str), Some("3"));
    assert_eq!(params.get("b").map(String::as_str), Some("2"));
    assert_eq!(params.get("c").map(String::as_str), Some("5"));
    assert!(params.greedy());
    params.rollback(mark);
    assert_eq!(params.len(), 2);
    assert_eq!(params.get("a").map(String::as_str), Some("1"));
    assert_eq!(params.get("b").map(String::as_str), Some("2"));
    assert!(!params.contains_key("c"));
    assert!(!params.greedy());
    let once = params.snapshot();
    params.rollback(mark);
    assert_eq!(params.snapshot(), once);
    params.rollback((0, false, 0));
    assert_eq!(params, PathParams::default());
}

#[test]
fn plain_patterns_match_their_own_path() {
    for target in ["", "/", "a", "a/b", "//a//b/c/"] {
        let (matched, state) = tried(target, target);
        assert!(matched, "{target}");
        assert!(state.is_ended());
        assert_eq!(state.params.len(), 0);
    }
}
