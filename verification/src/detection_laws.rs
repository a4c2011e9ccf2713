//! What holds of every detection in a routing tree, with or without an index.

use vstd::prelude::*;

use crate::conduct::{
    alike, all_decided, all_revocable, comparable, decided, demands, granted, leaves_revocable,
    mild, reaches, revocable, within,
};
use crate::filter_laws::revocable_in_steps;
use crate::filters::{continues, FilterBox, Reply, Verdict, World};
use crate::laws::{
    lemma_name_index, rollback_is_idempotent, rollback_to_here_is_nothing, rollback_undoes_capture,
};
use crate::path_state::{at_most, Mark, ParamsView, PathView};
use crate::router::Router;
use crate::semantics::{
    admitted, admitted_from, all_from, candidates, descends, detects, filters_outcome,
    lemma_first_child, lemma_first_filter, lemma_own_filters, rolled_back, wide, Course,
};

verus! {

proof fn lemma_filters_revocable(
    filters: Seq<FilterBox>,
    from: int,
    w: World,
    verdict: Verdict,
    after: World,
)
    requires
        0 <= from,
        forall|i: int| 0 <= i < filters.len() ==> leaves_revocable(#[trigger] filters[i]),
        filters_outcome(filters, from, w, verdict, after),
        mild(after.asked),
    ensures
        revocable(w.path, after.path),
    decreases filters.len() - from,
{
    if from < filters.len() {
        let (v, mid) = lemma_first_filter(filters, from, w, verdict, after);
        assert(leaves_revocable(filters[from]));
        if v is Pass {
            lemma_filters_replies(filters, from + 1, mid, verdict, after);
            mild_from_the_start(mid.asked, after.asked);
            lemma_filters_revocable(filters, from + 1, mid, verdict, after);
            revocable_in_steps(w.path, mid.path, after.path);
        }
    }
}

/// Where all that the outside tests did can be taken back, so can what they did up to any
/// point before.
pub proof fn mild_from_the_start(before: Seq<Reply>, after: Seq<Reply>)
    requires
        continues(before, after),
        mild(after),
    ensures
        mild(before),
{
    assert forall|i: int| 0 <= i < before.len() implies revocable(
        (#[trigger] before[i]).path,
        before[i].left_path,
    ) by {
        assert(after[i] == before[i]);
    }
}

/// Taking the path back to where a node was entered restores it, whatever was captured
/// and walked over since, as often as it is done. Only that the end was reached once is
/// kept.
pub proof fn rollback_restores_the_entry(entry: PathView, now: PathView)
    requires
        revocable(entry, now),
    ensures
        now.rolled_back(entry.mark()) == (PathView { once_ended: now.once_ended, ..entry }),
        now.rolled_back(entry.mark()).rolled_back(entry.mark()) == now.rolled_back(entry.mark()),
        revocable(entry, now.rolled_back(entry.mark())),
{
    let mark = entry.mark();
    assert(reaches(entry, mark));
    rollback_to_here_is_nothing(entry);
    rollback_is_idempotent(now, mark);
    let back = now.rolled_back(mark);
    assert forall|m: Mark| #[trigger] reaches(entry, m) implies reaches(back, m)
        && back.rolled_back(m) == (PathView {
        once_ended: back.once_ended,
        ..entry.rolled_back(m)
    }) by {}
}

/// Moving the cursor, capturing a value, capturing the rest, adding to the matched path and
/// reaching the end can each be taken back.
pub proof fn steps_are_revocable(
    path: PathView,
    cursor: (usize, usize),
    name: Seq<char>,
    value: Seq<char>,
    part: Seq<char>,
)
    ensures
        revocable(path, PathView { cursor, ..path }),
        revocable(path, PathView { params: path.params.inserted(name, value), ..path }),
        revocable(
            path,
            PathView {
                params: ParamsView { greedy: true, ..path.params.inserted(name, value) },
                ..path
            },
        ),
        revocable(path, PathView { matched_parts: path.matched_parts.push(part), ..path }),
        revocable(path, PathView { once_ended: true, ..path }),
{
    lemma_name_index(path.params.entries, name, 0);
    let captured = PathView { params: path.params.inserted(name, value), ..path };
    let rest = PathView { params: ParamsView { greedy: true, ..captured.params }, ..path };
    let longer = PathView { matched_parts: path.matched_parts.push(part), ..path };
    assert forall|mark: Mark| #[trigger] reaches(path, mark) implies reaches(captured, mark)
        && captured.rolled_back(mark) == path.rolled_back(mark) && reaches(rest, mark)
        && rest.rolled_back(mark) == path.rolled_back(mark) && reaches(longer, mark)
        && longer.rolled_back(mark) == path.rolled_back(mark) by {
        rollback_undoes_capture(path.params, name, value, mark.params);
        assert(rest.params.rolled_back(mark.params) =~= path.params.rolled_back(mark.params));
        assert(at_most(longer.matched_parts, mark.matched_parts as int) =~= at_most(
            path.matched_parts,
            mark.matched_parts as int,
        ));
    }
}

proof fn lemma_descends_revocable(
    router: Router,
    indexed: bool,
    start: PathView,
    cands: Seq<int>,
    w: World,
    course: Course,
    after: World,
)
    requires
        all_revocable(router),
        w.path == (PathView { once_ended: w.path.once_ended, ..start }),
        descends(router, indexed, start.mark(), cands, w, course, after),
        mild(after.asked),
    ensures
        revocable(w.path, after.path),
        course is Nothing ==> after.path == (PathView {
            once_ended: after.path.once_ended,
            ..start
        }),
    decreases router, 0int, cands.len(),
{
    if cands.len() > 0 {
        let child = router.routers@[cands[0]];
        let rest = cands.drop_first();
        let mark = start.mark();
        let (r, mid) = lemma_first_child(router, indexed, mark, cands, w, course, after);
        if r is Nothing {
            let back = rolled_back(mid, mark);
            lemma_descends_replies(router, indexed, mark, rest, back, course, after);
            mild_from_the_start(mid.asked, after.asked);
            lemma_detects_revocable(child, indexed, w, r, mid);
            assert(mark == w.path.mark());
            rollback_restores_the_entry(w.path, mid.path);
            lemma_descends_revocable(router, indexed, start, rest, back, course, after);
            revocable_in_steps(w.path, back.path, after.path);
        } else {
            lemma_detects_revocable(child, indexed, w, r, mid);
        }
    }
}

proof fn lemma_detects_revocable(
    router: Router,
    indexed: bool,
    w: World,
    course: Course,
    after: World,
)
    requires
        all_revocable(router),
        detects(router, indexed, w, course, after),
        mild(after.asked),
    ensures
        revocable(w.path, after.path),
    decreases router, 1int, 0nat,
{
    let (v, mid) = lemma_own_filters(router, indexed, w, course, after);
    if v is Pass {
        let cands = candidates(router.routers@, indexed, mid.path.pick());
        lemma_descends_replies(router, indexed, mid.path.mark(), cands, mid, course, after);
        mild_from_the_start(mid.asked, after.asked);
        lemma_filters_revocable(router.filters@, 0, w, v, mid);
        lemma_descends_revocable(router, indexed, mid.path, cands, mid, course, after);
        revocable_in_steps(w.path, mid.path, after.path);
    } else {
        lemma_filters_revocable(router.filters@, 0, w, v, mid);
    }
}

/// A branch leaves no trace once the path is taken back to where the branch was
/// entered: it is as it was, with the captures that it had. Only that the end was
/// reached once is remembered.
pub proof fn rollback_undoes_a_branch(
    branch: Router,
    indexed: bool,
    w: World,
    course: Course,
    after: World,
)
    requires
        all_revocable(branch),
        detects(branch, indexed, w, course, after),
        mild(after.asked),
    ensures
        rolled_back(after, w.path.mark()).path == (PathView {
            once_ended: after.path.once_ended,
            ..w.path
        }),
{
    lemma_detects_revocable(branch, indexed, w, course, after);
    rollback_restores_the_entry(w.path, after.path);
}

/// A detection that finds no route gives the path back as it was, with the captures that
/// it had: wherever the walk went, it is taken back. Only that the end was reached once is
/// remembered. This holds from a node without filters of its own.
pub proof fn failed_detection_restores_the_path(
    router: Router,
    indexed: bool,
    w: World,
    after: World,
)
    requires
        router.filters@.len() == 0,
        all_revocable(router),
        detects(router, indexed, w, Course::Nothing, after),
        mild(after.asked),
    ensures
        after.path == (PathView { once_ended: after.path.once_ended, ..w.path }),
        w.path.once_ended ==> after.path.once_ended,
{
    let (v, mid) = lemma_own_filters(router, indexed, w, Course::Nothing, after);
    assert(v is Pass && mid == w);
    let cands = candidates(router.routers@, indexed, w.path.pick());
    lemma_descends_revocable(router, indexed, w.path, cands, w, Course::Nothing, after);
}

proof fn lemma_filters_decided(
    filters: Seq<FilterBox>,
    from: int,
    w: World,
    v1: Verdict,
    a1: World,
    h1: Seq<Reply>,
    v2: Verdict,
    a2: World,
    h2: Seq<Reply>,
)
    requires
        0 <= from,
        forall|i: int| 0 <= i < filters.len() ==> decided(#[trigger] filters[i]),
        filters_outcome(filters, from, w, v1, a1),
        filters_outcome(filters, from, w, v2, a2),
        within(v1 is Waits, a1, h1),
        within(v2 is Waits, a2, h2),
        comparable(v1 is Waits, v2 is Waits, h1, h2),
    ensures
        v1 == v2,
        a1 == a2,
    decreases filters.len() - from,
{
    if from < filters.len() {
        let (s1, mid1) = lemma_first_filter(filters, from, w, v1, a1);
        let (s2, mid2) = lemma_first_filter(filters, from, w, v2, a2);
        if s1 is Pass {
            lemma_filters_replies(filters, from + 1, mid1, v1, a1);
        }
        if s2 is Pass {
            lemma_filters_replies(filters, from + 1, mid2, v2, a2);
        }
        assert(decided(filters[from]));
        assert(alike(h1, h2));
        assert(within(s1 is Waits, mid1, h1));
        assert(within(s2 is Waits, mid2, h2));
        assert(s1 == s2 && mid1 == mid2);
        if s1 is Pass {
            lemma_filters_decided(filters, from + 1, mid1, v1, a1, h1, v2, a2, h2);
        }
    }
}

proof fn lemma_descends_decided(
    router: Router,
    indexed: bool,
    mark: Mark,
    cands: Seq<int>,
    w: World,
    c1: Course,
    a1: World,
    h1: Seq<Reply>,
    c2: Course,
    a2: World,
    h2: Seq<Reply>,
)
    requires
        all_decided(router),
        descends(router, indexed, mark, cands, w, c1, a1),
        descends(router, indexed, mark, cands, w, c2, a2),
        within(c1 is Waits, a1, h1),
        within(c2 is Waits, a2, h2),
        comparable(c1 is Waits, c2 is Waits, h1, h2),
    ensures
        c1 == c2,
        a1 == a2,
    decreases router, 0int, cands.len(),
{
    if cands.len() > 0 {
        let child = router.routers@[cands[0]];
        let rest = cands.drop_first();
        let (r1, mid1) = lemma_first_child(router, indexed, mark, cands, w, c1, a1);
        let (r2, mid2) = lemma_first_child(router, indexed, mark, cands, w, c2, a2);
        if r1 is Nothing {
            let back = rolled_back(mid1, mark);
            lemma_descends_replies(router, indexed, mark, rest, back, c1, a1);
        }
        if r2 is Nothing {
            let back = rolled_back(mid2, mark);
            lemma_descends_replies(router, indexed, mark, rest, back, c2, a2);
        }
        lemma_detects_decided(child, indexed, w, r1, mid1, h1, r2, mid2, h2);
        if r1 is Nothing {
            let back = rolled_back(mid1, mark);
            lemma_descends_decided(router, indexed, mark, rest, back, c1, a1, h1, c2, a2, h2);
        }
    }
}

proof fn lemma_detects_decided(
    router: Router,
    indexed: bool,
    w: World,
    c1: Course,
    a1: World,
    h1: Seq<Reply>,
    c2: Course,
    a2: World,
    h2: Seq<Reply>,
)
    requires
        all_decided(router),
        detects(router, indexed, w, c1, a1),
        detects(router, indexed, w, c2, a2),
        within(c1 is Waits, a1, h1),
        within(c2 is Waits, a2, h2),
        comparable(c1 is Waits, c2 is Waits, h1, h2),
    ensures
        c1 == c2,
        a1 == a2,
    decreases router, 1int, 0nat,
{
    let (v1, mid1) = lemma_own_filters(router, indexed, w, c1, a1);
    let (v2, mid2) = lemma_own_filters(router, indexed, w, c2, a2);
    if v1 is Pass {
        let cands = candidates(router.routers@, indexed, mid1.path.pick());
        lemma_descends_replies(router, indexed, mid1.path.mark(), cands, mid1, c1, a1);
    }
    if v2 is Pass {
        let cands = candidates(router.routers@, indexed, mid2.path.pick());
        lemma_descends_replies(router, indexed, mid2.path.mark(), cands, mid2, c2, a2);
    }
    lemma_filters_decided(router.filters@, 0, w, v1, mid1, h1, v2, mid2, h2);
    if v1 is Pass {
        let mark = mid1.path.mark();
        let cands = candidates(router.routers@, indexed, mid1.path.pick());
        lemma_descends_decided(router, indexed, mark, cands, mid1, c1, a1, h1, c2, a2, h2);
    }
}

/// Where the world and the outside tests decide what each filter does, they decide what a
/// detection comes to and what it leaves behind, at every pause and in the end.
pub proof fn detection_is_decided(
    router: Router,
    indexed: bool,
    w: World,
    c1: Course,
    a1: World,
    c2: Course,
    a2: World,
)
    requires
        all_decided(router),
        detects(router, indexed, w, c1, a1),
        detects(router, indexed, w, c2, a2),
        comparable(c1 is Waits, c2 is Waits, a1.asked, a2.asked),
    ensures
        c1 == c2,
        a1 == a2,
{
    lemma_detects_decided(router, indexed, w, c1, a1, a1.asked, c2, a2, a2.asked);
}

/// Filters add to what happened when outside tests were asked, and all of them pass only
/// where the outside tests said yes that one of them demands.
pub proof fn lemma_filters_replies(
    filters: Seq<FilterBox>,
    from: int,
    w: World,
    verdict: Verdict,
    after: World,
)
    requires
        0 <= from,
        filters_outcome(filters, from, w, verdict, after),
    ensures
        continues(w.asked, after.asked),
        verdict is Pass ==> forall|i: int, key: usize|
            from <= i < filters.len() && #[trigger] demands(filters[i], key) ==> granted(
                w.asked,
                after.asked,
                key,
            ),
    decreases filters.len() - from,
{
    if from < filters.len() {
        let (v, mid) = lemma_first_filter(filters, from, w, verdict, after);
        if v is Pass {
            lemma_filters_replies(filters, from + 1, mid, verdict, after);
        }
        if verdict is Pass {
            assert forall|i: int, key: usize|
                from <= i < filters.len() && #[trigger] demands(filters[i], key) implies granted(
                w.asked,
                after.asked,
                key,
            ) by {
                if i == from {
                    assert(granted(w.asked, mid.asked, key));
                    granted_stays(w.asked, mid.asked, after.asked, key);
                } else {
                    assert(granted(mid.asked, after.asked, key));
                }
            }
        }
    }
}

/// What an outside test granted stays granted.
pub proof fn granted_stays(before: Seq<Reply>, mid: Seq<Reply>, after: Seq<Reply>, key: usize)
    requires
        granted(before, mid, key),
        continues(mid, after),
    ensures
        granted(before, after, key),
{
    let j = choose|j: int|
        before.len() <= j < mid.len() && (#[trigger] mid[j]).key == key && mid[j].answer;
    assert(after[j] == mid[j]);
}

/// A descent adds to what happened when outside tests were asked.
pub proof fn lemma_descends_replies(
    router: Router,
    indexed: bool,
    mark: Mark,
    cands: Seq<int>,
    w: World,
    course: Course,
    after: World,
)
    requires
        descends(router, indexed, mark, cands, w, course, after),
    ensures
        continues(w.asked, after.asked),
    decreases router, 0int, cands.len(),
{
    if cands.len() > 0 {
        let child = router.routers@[cands[0]];
        let rest = cands.drop_first();
        let (r, mid) = lemma_first_child(router, indexed, mark, cands, w, course, after);
        replies_are_kept(child, indexed, w, r, mid);
        if r is Nothing {
            let back = rolled_back(mid, mark);
            lemma_descends_replies(router, indexed, mark, rest, back, course, after);
        }
    }
}

/// A detection adds to what happened when outside tests were asked, and changes nothing of
/// it.
pub proof fn replies_are_kept(
    router: Router,
    indexed: bool,
    w: World,
    course: Course,
    after: World,
)
    requires
        detects(router, indexed, w, course, after),
    ensures
        continues(w.asked, after.asked),
    decreases router, 1int, 0nat,
{
    let (v, mid) = lemma_own_filters(router, indexed, w, course, after);
    lemma_filters_replies(router.filters@, 0, w, v, mid);
    if v is Pass {
        let cands = candidates(router.routers@, indexed, mid.path.pick());
        lemma_descends_replies(router, indexed, mid.path.mark(), cands, mid, course, after);
    }
}

/// A route is taken only where each outside test that the node demands was asked and said
/// yes: behind a test that said no, no route is taken.
pub proof fn refused_route_is_not_taken(
    router: Router,
    indexed: bool,
    w: World,
    course: Course,
    after: World,
    i: int,
    key: usize,
)
    requires
        detects(router, indexed, w, course, after),
        0 <= i < router.filters@.len(),
        demands(router.filters@[i], key),
    ensures
        !granted(w.asked, after.asked, key) ==> course !is Found,
{
    let (v, mid) = lemma_own_filters(router, indexed, w, course, after);
    lemma_filters_replies(router.filters@, 0, w, v, mid);
    if v is Pass {
        let cands = candidates(router.routers@, indexed, mid.path.pick());
        lemma_descends_replies(router, indexed, mid.path.mark(), cands, mid, course, after);
        assert(granted(w.asked, mid.asked, key));
        granted_stays(w.asked, mid.asked, after.asked, key);
    }
}

/// The children that a detection tries come in the order of their registration, and
/// all children are among them that the next segment does not rule out. Without an
/// index, or where a node is not wide, these are all children.
pub proof fn candidates_are_in_registration_order(
    children: Seq<Router>,
    indexed: bool,
    pick: Option<Seq<char>>,
)
    ensures
        forall|i: int, j: int|
            0 <= i < j < candidates(children, indexed, pick).len() ==> candidates(
                children,
                indexed,
                pick,
            )[i] < candidates(children, indexed, pick)[j],
        forall|c: int| #[trigger]
            candidates(children, indexed, pick).contains(c) <==> 0 <= c < children.len() && (
            indexed && wide(children) ==> admitted(children[c], pick)),
{
    if indexed && wide(children) {
        lemma_admitted_from(children, pick, 0);
    } else {
        lemma_all_from(children.len() as int, 0);
    }
}

proof fn lemma_all_from(n: int, from: int)
    requires
        0 <= from,
    ensures
        forall|i: int, j: int|
            0 <= i < j < all_from(n, from).len() ==> all_from(n, from)[i] < all_from(n, from)[j],
        forall|c: int| #[trigger] all_from(n, from).contains(c) <==> from <= c < n,
    decreases n - from,
{
    let list = all_from(n, from);
    if from < n {
        let rest = all_from(n, from + 1);
        lemma_all_from(n, from + 1);
        assert forall|c: int| #[trigger] list.contains(c) <==> from <= c < n by {
            if rest.contains(c) {
                let k = choose|k: int| 0 <= k < rest.len() && rest[k] == c;
                assert(list[k + 1] == c);
            }
            assert(list[0] == from);
            if list.contains(c) && c != from {
                let k = choose|k: int| 0 <= k < list.len() && list[k] == c;
                assert(rest[k - 1] == c);
            }
        }
        assert forall|i: int, j: int| 0 <= i < j < list.len() implies list[i] < list[j] by {
            assert(list[j] == rest[j - 1]);
            if i == 0 {
                assert(rest.contains(rest[j - 1]));
            } else {
                assert(list[i] == rest[i - 1]);
            }
        }
    }
}

proof fn lemma_admitted_from(children: Seq<Router>, pick: Option<Seq<char>>, from: int)
    requires
        0 <= from,
    ensures
        forall|i: int, j: int|
            0 <= i < j < admitted_from(children, pick, from).len() ==> admitted_from(
                children,
                pick,
                from,
            )[i] < admitted_from(children, pick, from)[j],
        forall|c: int| #[trigger]
            admitted_from(children, pick, from).contains(c) <==> from <= c < children.len()
                && admitted(children[c], pick),
    decreases children.len() - from,
{
    let list = admitted_from(children, pick, from);
    if from < children.len() {
        let rest = admitted_from(children, pick, from + 1);
        lemma_admitted_from(children, pick, from + 1);
        if admitted(children[from], pick) {
            assert forall|c: int| #[trigger] list.contains(c) <==> from <= c < children.len()
                && admitted(children[c], pick) by {
                if rest.contains(c) {
                    let k = choose|k: int| 0 <= k < rest.len() && rest[k] == c;
                    assert(list[k + 1] == c);
                }
                assert(list[0] == from);
                if list.contains(c) && c != from {
                    let k = choose|k: int| 0 <= k < list.len() && list[k] == c;
                    assert(rest[k - 1] == c);
                }
            }
            assert forall|i: int, j: int| 0 <= i < j < list.len() implies list[i] < list[j] by {
                assert(list[j] == rest[j - 1]);
                if i == 0 {
                    assert(rest.contains(rest[j - 1]));
                } else {
                    assert(list[i] == rest[i - 1]);
                }
            }
        }
    }
}

} // verus!
