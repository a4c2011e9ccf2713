//! What a detection may come to.
//!
//! Filters need not be functions, so neither is detection: each relation here says
//! whether, from one world, a part of the routing tree may come to a result and
//! leave another world behind.

use std::sync::Arc;

use vstd::prelude::*;

use crate::filters::{evaluated, resumes, Filter, FilterBox, Side, Verdict, World};
use crate::path_state::{Mark, PathView};
use crate::router::{Handler, Router};

verus! {

/// Where a detection ended: the middleware on the way down, and the goal.
#[verifier::ext_equal]
pub struct Hit {
    pub hoops: Seq<Arc<Handler>>,
    pub goal: Arc<Handler>,
}

impl Hit {
    /// The same end, seen from a node above with the given middleware.
    pub open spec fn under(self, hoops: Seq<Arc<Handler>>) -> Hit {
        Hit { hoops: hoops + self.hoops, goal: self.goal }
    }
}

/// What comes of a detection: it ends at a goal, it finds none, or it waits for the
/// outside test with the given key.
pub enum Course {
    Found(Hit),
    Nothing,
    Waits(usize),
}

/// What comes of a detection below a node with the given middleware, seen from above.
pub open spec fn raised(course: Course, hoops: Seq<Arc<Handler>>) -> Course {
    match course {
        Course::Found(hit) => Course::Found(hit.under(hoops)),
        _ => course,
    }
}

/// Whether the filters from `from` on, evaluated one after the other up to the
/// first that does not let the request pass, may come to `verdict` and leave `after`.
pub open spec fn filters_outcome(
    filters: Seq<FilterBox>,
    from: int,
    w: World,
    verdict: Verdict,
    after: World,
) -> bool
    decreases filters.len() - from,
{
    if from >= filters.len() {
        verdict is Pass && after == w
    } else {
        exists|v: Verdict, mid: World| #[trigger]
            evaluated(filters[from], w, v, mid) && (if v is Pass {
                filters_outcome(filters, from + 1, mid, verdict, after)
            } else {
                verdict == v && after == mid
            })
    }
}

/// Whether the filters, with the one at `from` waiting at `at`, may come to `verdict`
/// and leave `after` once the outside test has said `answer` and left `w`.
pub open spec fn filters_resumed(
    filters: Seq<FilterBox>,
    from: int,
    at: Seq<Side>,
    answer: bool,
    w: World,
    verdict: Verdict,
    after: World,
) -> bool {
    exists|v: Verdict, mid: World| #[trigger]
        resumes(filters[from], at, answer, w, v, mid) && (if v is Pass {
            filters_outcome(filters, from + 1, mid, verdict, after)
        } else {
            verdict == v && after == mid
        })
}

/// The static segment that a node asks for first, where it declares one.
pub open spec fn first_segment(router: Router) -> Option<Seq<char>> {
    if router.filters@.len() > 0 {
        router.filters@[0].segment()
    } else {
        None
    }
}

/// How many of the first `n` nodes declare a static segment.
pub open spec fn static_nodes(children: Seq<Router>, n: int) -> nat
    decreases n,
{
    if n <= 0 {
        0
    } else {
        static_nodes(children, n - 1) + (if first_segment(children[n - 1]) is Some {
            1nat
        } else {
            0nat
        })
    }
}

/// Minimum number of statically-discriminated children that makes an index over
/// the next path segment worthwhile.
pub const STATIC_INDEX_THRESHOLD: usize = 8;

/// Whether a list of children is wide enough to be indexed.
pub open spec fn wide(children: Seq<Router>) -> bool {
    static_nodes(children, children.len() as int) >= STATIC_INDEX_THRESHOLD
}

/// Whether a node may match a path whose next segment is `pick`, as far as the
/// static segment that it declares can tell.
pub open spec fn admitted(child: Router, pick: Option<Seq<char>>) -> bool {
    first_segment(child) is None || first_segment(child) == pick
}

/// The indices from `from` up to `n`.
pub open spec fn all_from(n: int, from: int) -> Seq<int>
    decreases n - from,
{
    if from >= n {
        seq![]
    } else {
        seq![from] + all_from(n, from + 1)
    }
}

/// The indices from `from` on of the children that `pick` admits.
pub open spec fn admitted_from(
    children: Seq<Router>,
    pick: Option<Seq<char>>,
    from: int,
) -> Seq<int>
    decreases children.len() - from,
{
    if from >= children.len() {
        seq![]
    } else if admitted(children[from], pick) {
        seq![from] + admitted_from(children, pick, from + 1)
    } else {
        admitted_from(children, pick, from + 1)
    }
}

/// The children that a detection tries, in order, when it enters a node with `pick`
/// as the next segment: all of them, or, by an index, those that `pick` admits.
pub open spec fn candidates(
    children: Seq<Router>,
    indexed: bool,
    pick: Option<Seq<char>>,
) -> Seq<int> {
    if indexed && wide(children) {
        admitted_from(children, pick, 0)
    } else {
        all_from(children.len() as int, 0)
    }
}

/// What a node comes to once none of its children has taken the request.
pub open spec fn finished(router: Router, w: World, course: Course, after: World) -> bool {
    if w.path.is_ended() {
        &&& after == (World { path: PathView { once_ended: true, ..w.path }, ..w })
        &&& course == match router.goal {
            Some(goal) => Course::Found(Hit { hoops: router.hoops@, goal }),
            None => Course::Nothing,
        }
    } else {
        after == w && course is Nothing
    }
}

/// The world with its path taken back to a mark.
pub open spec fn rolled_back(w: World, mark: Mark) -> World {
    World { path: w.path.rolled_back(mark), ..w }
}

/// Whether a detection that has entered `router` at `mark`, and has the children
/// `cands` still to try, may come to `course` and leave `after`.
pub open spec fn descends(
    router: Router,
    indexed: bool,
    mark: Mark,
    cands: Seq<int>,
    w: World,
    course: Course,
    after: World,
) -> bool
    decreases router, 0int, cands.len(),
{
    if cands.len() == 0 {
        finished(router, w, course, after)
    } else {
        let c = cands[0];
        0 <= c < router.routers@.len() && exists|r: Course, mid: World|
            #![trigger raised(r, router.hoops@), rolled_back(mid, mark)]
            detects(router.routers@[c], indexed, w, r, mid) && (if r is Nothing {
                descends(
                    router,
                    indexed,
                    mark,
                    cands.drop_first(),
                    rolled_back(mid, mark),
                    course,
                    after,
                )
            } else {
                course == raised(r, router.hoops@) && after == mid
            })
    }
}

/// Whether the detection of a route below `router` may come to `course` and leave
/// `after`: depth first, the children in order of registration, with the path
/// taken back after each child that leads nowhere. With `indexed`, wide nodes
/// leave out the children that the next segment rules out. Where a filter waits, so
/// does the detection, in the world that the filter leaves.
pub open spec fn detects(
    router: Router,
    indexed: bool,
    w: World,
    course: Course,
    after: World,
) -> bool
    decreases router, 1int, 0nat,
{
    exists|v: Verdict, mid: World| #[trigger]
        filters_outcome(router.filters@, 0, w, v, mid) && (match v {
            Verdict::Pass => descends(
                router,
                indexed,
                mid.path.mark(),
                candidates(router.routers@, indexed, mid.path.pick()),
                mid,
                course,
                after,
            ),
            Verdict::Fail => course is Nothing && after == mid,
            Verdict::Waits(key) => course == Course::Waits(key) && after == mid,
        })
}

/// What comes of the first filter that is evaluated.
pub proof fn lemma_first_filter(
    filters: Seq<FilterBox>,
    from: int,
    w: World,
    verdict: Verdict,
    after: World,
) -> (step: (Verdict, World))
    requires
        from < filters.len(),
        filters_outcome(filters, from, w, verdict, after),
    ensures
        evaluated(filters[from], w, step.0, step.1),
        if step.0 is Pass {
            filters_outcome(filters, from + 1, step.1, verdict, after)
        } else {
            verdict == step.0 && after == step.1
        },
{
    choose|v: Verdict, mid: World| #[trigger]
        evaluated(filters[from], w, v, mid) && (if v is Pass {
            filters_outcome(filters, from + 1, mid, verdict, after)
        } else {
            verdict == v && after == mid
        })
}

/// What comes of the first child that is tried.
pub proof fn lemma_first_child(
    router: Router,
    indexed: bool,
    mark: Mark,
    cands: Seq<int>,
    w: World,
    course: Course,
    after: World,
) -> (step: (Course, World))
    requires
        cands.len() > 0,
        descends(router, indexed, mark, cands, w, course, after),
    ensures
        0 <= cands[0] < router.routers@.len(),
        detects(router.routers@[cands[0]], indexed, w, step.0, step.1),
        if step.0 is Nothing {
            descends(
                router,
                indexed,
                mark,
                cands.drop_first(),
                rolled_back(step.1, mark),
                course,
                after,
            )
        } else {
            course == raised(step.0, router.hoops@) && after == step.1
        },
{
    choose|r: Course, mid: World|
        #![trigger raised(r, router.hoops@), rolled_back(mid, mark)]
        detects(router.routers@[cands[0]], indexed, w, r, mid) && (if r is Nothing {
            descends(
                router,
                indexed,
                mark,
                cands.drop_first(),
                rolled_back(mid, mark),
                course,
                after,
            )
        } else {
            course == raised(r, router.hoops@) && after == mid
        })
}

/// What comes of the filters of a node.
pub proof fn lemma_own_filters(
    router: Router,
    indexed: bool,
    w: World,
    course: Course,
    after: World,
) -> (step: (Verdict, World))
    requires
        detects(router, indexed, w, course, after),
    ensures
        filters_outcome(router.filters@, 0, w, step.0, step.1),
        match step.0 {
            Verdict::Pass => descends(
                router,
                indexed,
                step.1.path.mark(),
                candidates(router.routers@, indexed, step.1.path.pick()),
                step.1,
                course,
                after,
            ),
            Verdict::Fail => course is Nothing && after == step.1,
            Verdict::Waits(key) => course == Course::Waits(key) && after == step.1,
        },
{
    choose|v: Verdict, mid: World| #[trigger]
        filters_outcome(router.filters@, 0, w, v, mid) && (match v {
            Verdict::Pass => descends(
                router,
                indexed,
                mid.path.mark(),
                candidates(router.routers@, indexed, mid.path.pick()),
                mid,
                course,
                after,
            ),
            Verdict::Fail => course is Nothing && after == mid,
            Verdict::Waits(key) => course == Course::Waits(key) && after == mid,
        })
}

/// Whether every filter of the tree is valid.
pub open spec fn valid(router: Router) -> bool
    decreases router,
{
    &&& forall|i: int|
        0 <= i < router.filters@.len() ==> (#[trigger] router.filters@[i]).valid()
    &&& forall|i: int| 0 <= i < router.routers@.len() ==> valid(#[trigger] router.routers@[i])
}

/// Whether no filter of the tree ever waits.
pub open spec fn all_sync(router: Router) -> bool
    decreases router,
{
    &&& forall|i: int| 0 <= i < router.filters@.len() ==> (#[trigger] router.filters@[i]).sync()
    &&& forall|i: int| 0 <= i < router.routers@.len() ==> all_sync(#[trigger] router.routers@[i])
}

} // verus!
