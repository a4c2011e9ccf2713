//! What routes a detection finds, told by the nodes of the routing tree.

use std::sync::Arc;

use vstd::prelude::*;

use crate::filters::{evaluated, Filter, Verdict, World};
use crate::http::Method;
use crate::oapi_laws::{leads_down, router_at};
use crate::others::MethodFilter;
use crate::path_state::{Mark, PathView};
use crate::router::{bare, method_node, Handler, Router};
use crate::semantics::{
    all_from, candidates, descends, detects, filters_outcome, lemma_first_child,
    lemma_first_filter, lemma_own_filters, raised, rolled_back, Course, Hit,
};

verus! {

/// The middleware of the nodes on the way down to a node, the root first and the node last.
pub open spec fn hoops_on_the_way(router: Router, steps: Seq<int>) -> Seq<Seq<Arc<Handler>>> {
    Seq::new(steps.len() + 1, |k: int| router_at(router, steps.take(k)).hoops@)
}

proof fn lemma_one_step_more(router: Router, c: int, steps: Seq<int>)
    requires
        0 <= c < router.routers@.len(),
        leads_down(router.routers@[c], steps),
    ensures
        leads_down(router, seq![c] + steps),
        router_at(router, seq![c] + steps) == router_at(router.routers@[c], steps),
        hoops_on_the_way(router, seq![c] + steps).flatten() == router.hoops@ + hoops_on_the_way(
            router.routers@[c],
            steps,
        ).flatten(),
{
    let longer = seq![c] + steps;
    let child = router.routers@[c];
    assert(longer.drop_first() =~= steps);
    let way = hoops_on_the_way(router, longer);
    let further = hoops_on_the_way(child, steps);
    assert(longer.take(0) =~= Seq::<int>::empty());
    assert(way[0] == router.hoops@);
    assert forall|k: int| 0 <= k < further.len() implies #[trigger] way.drop_first()[k]
        == further[k] by {
        let upto = longer.take(k + 1);
        assert(upto.drop_first() =~= steps.take(k));
        assert(upto[0] == c);
    }
    assert(way.drop_first() =~= further);
}

proof fn lemma_descent_finds(
    router: Router,
    indexed: bool,
    mark: Mark,
    cands: Seq<int>,
    w: World,
    hit: Hit,
    after: World,
) -> (steps: Seq<int>)
    requires
        descends(router, indexed, mark, cands, w, Course::Found(hit), after),
    ensures
        leads_down(router, steps),
        router_at(router, steps).goal == Some(hit.goal),
        hit.hoops == hoops_on_the_way(router, steps).flatten(),
        after.path.cursor.0 >= after.path.parts.len(),
        after.path.once_ended,
    decreases router, 0int, cands.len(),
{
    let course = Course::Found(hit);
    if cands.len() == 0 {
        let steps = Seq::<int>::empty();
        let way = hoops_on_the_way(router, steps);
        assert(steps.take(0) =~= steps);
        assert(way[0] == router.hoops@);
        way.lemma_flatten_one_element();
        steps
    } else {
        let c = cands[0];
        let (r, mid) = lemma_first_child(router, indexed, mark, cands, w, course, after);
        if r is Nothing {
            let back = rolled_back(mid, mark);
            lemma_descent_finds(router, indexed, mark, cands.drop_first(), back, hit, after)
        } else {
            let inner = r->Found_0;
            let steps = lemma_detection_finds(router.routers@[c], indexed, w, inner, mid);
            lemma_one_step_more(router, c, steps);
            seq![c] + steps
        }
    }
}

proof fn lemma_detection_finds(router: Router, indexed: bool, w: World, hit: Hit, after: World) -> (
    steps: Seq<int>)
    requires
        detects(router, indexed, w, Course::Found(hit), after),
    ensures
        leads_down(router, steps),
        router_at(router, steps).goal == Some(hit.goal),
        hit.hoops == hoops_on_the_way(router, steps).flatten(),
        after.path.cursor.0 >= after.path.parts.len(),
        after.path.once_ended,
    decreases router, 1int, 0nat,
{
    let course = Course::Found(hit);
    let (v, mid) = lemma_own_filters(router, indexed, w, course, after);
    let cands = candidates(router.routers@, indexed, mid.path.pick());
    lemma_descent_finds(router, indexed, mid.path.mark(), cands, mid, hit, after)
}

/// Whether `goal` is the goal of a node of the tree, and `hoops` the middleware of all nodes on
/// the way from the root down to that node, that node among them.
pub open spec fn is_route(router: Router, hoops: Seq<Arc<Handler>>, goal: Arc<Handler>) -> bool {
    exists|steps: Seq<int>| #[trigger]
        leads_down(router, steps) && router_at(router, steps).goal == Some(goal) && hoops
            == hoops_on_the_way(router, steps).flatten()
}

/// What a detection finds is the goal of a node of the tree, and the middleware that it
/// gives is that of all nodes on the way from the root down to the node that holds the goal,
/// that node among them, each with all of its middleware, in this order. The path is walked
/// to its end.
pub proof fn found_route_has_all_middleware_on_its_way(
    router: Router,
    indexed: bool,
    w: World,
    hit: Hit,
    after: World,
)
    requires
        detects(router, indexed, w, Course::Found(hit), after),
    ensures
        exists|steps: Seq<int>| #[trigger]
            leads_down(router, steps) && router_at(router, steps).goal == Some(hit.goal)
                && hit.hoops == hoops_on_the_way(router, steps).flatten(),
        after.path.cursor.0 >= after.path.parts.len(),
        after.path.once_ended,
{
    let steps = lemma_detection_finds(router, indexed, w, hit, after);
    assert(leads_down(router, steps));
}

/// A node without filters and children takes the requests whose path is walked to its end,
/// where it has a goal, with all of its middleware, and no others.
pub proof fn leaf_takes_what_is_at_its_end(
    router: Router,
    indexed: bool,
    w: World,
    course: Course,
    after: World,
)
    requires
        router.filters@.len() == 0,
        router.routers@.len() == 0,
    ensures
        detects(router, indexed, w, course, after) <==> if w.path.cursor.0 >= w.path.parts.len() {
            &&& after == (World { path: PathView { once_ended: true, ..w.path }, ..w })
            &&& course == match router.goal {
                Some(goal) => Course::Found(Hit { hoops: router.hoops@, goal }),
                None => Course::Nothing,
            }
        } else {
            after == w && course is Nothing
        },
{
    let cands = candidates(router.routers@, indexed, w.path.pick());
    assert(cands.len() == 0);
    assert(filters_outcome(router.filters@, 0, w, Verdict::Pass, w));
    if detects(router, indexed, w, course, after) {
        let (v, mid) = lemma_own_filters(router, indexed, w, course, after);
        assert(v is Pass && mid == w);
    }
}

/// Whether a child, tried in the world `w`, may lead nowhere, so that `next` is the world
/// with the path taken back.
pub open spec fn nowhere(child: Router, w: World, mark: Mark, next: World) -> bool {
    exists|left: World| #[trigger]
        detects(child, false, w, Course::Nothing, left) && next == rolled_back(left, mark)
}

/// Whether the first `n` children were tried one after the other and led nowhere, each with
/// the path as it stood when the node was entered.
pub open spec fn led_nowhere(router: Router, mark: Mark, worlds: Seq<World>, n: int) -> bool {
    forall|i: int|
        0 <= i < n ==> nowhere(#[trigger] router.routers@[i], worlds[i], mark, worlds[i + 1])
}

/// What comes of a node whose filters have left the world `w`: the children are tried in the
/// order in which they were registered, the path is taken back after each that leads nowhere,
/// and the first that leads somewhere decides. Only where none does, the node's own goal is
/// taken, if the path is at its end.
pub open spec fn first_child_decides(
    router: Router,
    w: World,
    course: Course,
    after: World,
    worlds: Seq<World>,
    n: int,
) -> bool {
    &&& 0 <= n <= router.routers@.len()
    &&& worlds.len() == n + 1
    &&& worlds[0] == w
    &&& led_nowhere(router, w.path.mark(), worlds, n)
    &&& if n < router.routers@.len() {
        exists|r: Course| #[trigger]
            detects(router.routers@[n], false, worlds[n], r, after) && match r {
                Course::Found(hit) => course == Course::Found(
                    Hit { hoops: router.hoops@ + hit.hoops, goal: hit.goal },
                ),
                Course::Nothing => false,
                Course::Waits(key) => course == Course::Waits(key),
            }
    } else if worlds[n].path.cursor.0 >= worlds[n].path.parts.len() {
        &&& after == (World { path: PathView { once_ended: true, ..worlds[n].path }, ..worlds[n] })
        &&& course == match router.goal {
            Some(goal) => Course::Found(Hit { hoops: router.hoops@, goal }),
            None => Course::Nothing,
        }
    } else {
        after == worlds[n] && course is Nothing
    }
}

/// A detection in the routing tree is depth first, with the children of each node in the
/// order in which they were registered: nodes whose filters do not pass are not entered, and
/// the first child that leads somewhere decides, with the middleware of the node before its
/// own.
pub proof fn first_registered_child_decides(
    router: Router,
    w: World,
    course: Course,
    after: World,
)
    ensures
        detects(router, false, w, course, after) <==> exists|v: Verdict, mid: World| #[trigger]
            filters_outcome(router.filters@, 0, w, v, mid) && match v {
                Verdict::Pass => exists|worlds: Seq<World>, n: int| #[trigger]
                    first_child_decides(router, mid, course, after, worlds, n),
                Verdict::Fail => course is Nothing && after == mid,
                Verdict::Waits(key) => course == Course::Waits(key) && after == mid,
            },
{
    if detects(router, false, w, course, after) {
        let (v, mid) = lemma_own_filters(router, false, w, course, after);
        if v is Pass {
            lemma_tried(router, mid, 0, mid, course, after, seq![mid]);
        }
        assert(filters_outcome(router.filters@, 0, w, v, mid));
    }
    if exists|v: Verdict, mid: World| #[trigger]
        filters_outcome(router.filters@, 0, w, v, mid) && match v {
            Verdict::Pass => exists|worlds: Seq<World>, n: int| #[trigger]
                first_child_decides(router, mid, course, after, worlds, n),
            Verdict::Fail => course is Nothing && after == mid,
            Verdict::Waits(key) => course == Course::Waits(key) && after == mid,
        } {
        let (v, mid) = choose|v: Verdict, mid: World| #[trigger]
            filters_outcome(router.filters@, 0, w, v, mid) && match v {
                Verdict::Pass => exists|worlds: Seq<World>, n: int| #[trigger]
                    first_child_decides(router, mid, course, after, worlds, n),
                Verdict::Fail => course is Nothing && after == mid,
                Verdict::Waits(key) => course == Course::Waits(key) && after == mid,
            };
        if v is Pass {
            let (worlds, n) = choose|worlds: Seq<World>, n: int| #[trigger]
                first_child_decides(router, mid, course, after, worlds, n);
            lemma_tried_back(router, mid, 0, course, after, worlds, n);
        }
        assert(filters_outcome(router.filters@, 0, w, v, mid));
    }
}

proof fn lemma_tried(
    router: Router,
    entry: World,
    from: int,
    w: World,
    course: Course,
    after: World,
    worlds: Seq<World>,
)
    requires
        0 <= from <= router.routers@.len(),
        descends(
            router,
            false,
            entry.path.mark(),
            all_from(router.routers@.len() as int, from),
            w,
            course,
            after,
        ),
        worlds.len() == from + 1,
        worlds[0] == entry,
        worlds[from] == w,
        led_nowhere(router, entry.path.mark(), worlds, from),
    ensures
        exists|ws: Seq<World>, n: int| #[trigger]
            first_child_decides(router, entry, course, after, ws, n),
    decreases router.routers@.len() - from,
{
    let count = router.routers@.len() as int;
    let mark = entry.path.mark();
    let cands = all_from(count, from);
    if from == count {
        assert(first_child_decides(router, entry, course, after, worlds, from));
    } else {
        assert(cands.drop_first() =~= all_from(count, from + 1));
        let (r, mid) = lemma_first_child(router, false, mark, cands, w, course, after);
        if r is Nothing {
            let back = rolled_back(mid, mark);
            let more = worlds.push(back);
            assert(detects(router.routers@[from], false, worlds[from], Course::Nothing, mid));
            assert forall|i: int| 0 <= i < from + 1 implies nowhere(
                #[trigger] router.routers@[i],
                more[i],
                mark,
                more[i + 1],
            ) by {
                if i < from {
                    assert(nowhere(router.routers@[i], worlds[i], mark, worlds[i + 1]));
                }
            }
            lemma_tried(router, entry, from + 1, back, course, after, more);
        } else {
            assert(detects(router.routers@[from], false, worlds[from], r, after));
            assert(first_child_decides(router, entry, course, after, worlds, from));
        }
    }
}

proof fn lemma_tried_back(
    router: Router,
    entry: World,
    from: int,
    course: Course,
    after: World,
    worlds: Seq<World>,
    n: int,
)
    requires
        0 <= from <= n,
        first_child_decides(router, entry, course, after, worlds, n),
    ensures
        descends(
            router,
            false,
            entry.path.mark(),
            all_from(router.routers@.len() as int, from),
            worlds[from],
            course,
            after,
        ),
    decreases n - from,
{
    let count = router.routers@.len() as int;
    let mark = entry.path.mark();
    let cands = all_from(count, from);
    if from < count {
        assert(cands[0] == from);
        assert(cands.drop_first() =~= all_from(count, from + 1));
        if from < n {
            lemma_tried_back(router, entry, from + 1, course, after, worlds, n);
            assert(nowhere(router.routers@[from], worlds[from], mark, worlds[from + 1]));
            let left = choose|left: World| #[trigger]
                detects(router.routers@[from], false, worlds[from], Course::Nothing, left)
                    && worlds[from + 1] == rolled_back(left, mark);
            let up = raised(Course::Nothing, router.hoops@);
            let back = rolled_back(left, mark);
            assert(detects(router.routers@[cands[0]], false, worlds[from], Course::Nothing, left));
        } else {
            let r = choose|r: Course| #[trigger]
                detects(router.routers@[n], false, worlds[n], r, after) && match r {
                    Course::Found(hit) => course == Course::Found(
                        Hit { hoops: router.hoops@ + hit.hoops, goal: hit.goal },
                    ),
                    Course::Nothing => false,
                    Course::Waits(key) => course == Course::Waits(key),
                };
            let up = raised(r, router.hoops@);
            let back = rolled_back(after, mark);
            assert(detects(router.routers@[cands[0]], false, worlds[from], r, after));
            assert(course == up);
        }
    }
}

/// A child that was added for a method takes exactly the requests with that method whose path
/// is at its end, and takes them to its goal without middleware of its own.
pub proof fn method_child_takes_its_requests(
    child: Router,
    method: Method,
    goal: Handler,
    indexed: bool,
    w: World,
    course: Course,
    after: World,
)
    requires
        method_node(child, method, goal),
        !(method is Extension),
    ensures
        detects(child, indexed, w, course, after) <==> if w.req.method != method {
            after == w && course is Nothing
        } else if w.path.cursor.0 >= w.path.parts.len() {
            &&& after == (World { path: PathView { once_ended: true, ..w.path }, ..w })
            &&& course == Course::Found(Hit { hoops: seq![], goal: Arc::new(goal) })
        } else {
            after == w && course is Nothing
        },
{
    let filters = child.filters@;
    let wanted = MethodFilter(method);
    assert forall|v: Verdict, mid: World| #[trigger]
        filters_outcome(filters, 0, w, v, mid) <==> mid == w && (if w.req.method == method {
            v is Pass
        } else {
            v is Fail
        }) by {
        assert(filters[0].sync_outcome(w, v, mid) == wanted.sync_outcome(w, v, mid));
        assert(filters[0].outcome(w, v, mid) == wanted.outcome(w, v, mid));
        if filters_outcome(filters, 0, w, v, mid) {
            let (first, left) = lemma_first_filter(filters, 0, w, v, mid);
            assert(filters[0].sync_outcome(w, first, left) == wanted.sync_outcome(w, first, left));
            assert(evaluated(filters[0], w, first, left));
            assert(evaluated(wanted, w, first, left));
        }
        if mid == w && (if w.req.method == method {
            v is Pass
        } else {
            v is Fail
        }) {
            assert(evaluated(wanted, w, v, w));
            assert(evaluated(filters[0], w, v, w));
            assert(v is Pass ==> filters_outcome(filters, 1, w, v, w));
        }
    }
    let v = if w.req.method == method {
        Verdict::Pass
    } else {
        Verdict::Fail
    };
    assert(filters_outcome(filters, 0, w, v, w));
    let cands = candidates(child.routers@, indexed, w.path.pick());
    assert(cands.len() == 0);
    assert(child.hoops@ =~= seq![]);
    if detects(child, indexed, w, course, after) {
        let (first, mid) = lemma_own_filters(child, indexed, w, course, after);
        assert(filters_outcome(filters, 0, w, first, mid));
    }
}

/// A bare node has filters at most.
pub proof fn bare_node_has_filters_at_most(router: Router)
    ensures
        bare(router) <==> router.routers@.len() == 0 && router.hoops@.len() == 0 && router.goal
            is None && router.metadata is None,
{
}

} // verus!
