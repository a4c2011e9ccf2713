//! What a detection that is under way may still come to.
//!
//! A detection keeps a stack of the nodes that it is in, the root first. The
//! relations here tell what a stack may come to, and how that follows from what the
//! stack after one more step may come to.

use vstd::prelude::*;

use crate::filters::{Verdict, World};
use crate::path_state::Mark;
use crate::router::Router;
use crate::semantics::{
    admitted, admitted_from, all_from, candidates, descends, detects, filters_outcome, finished,
    raised, rolled_back, Course, Hit,
};

verus! {

/// A node that a detection is in: the children still to try, and where the path
/// stood when the node was entered.
pub struct FrameView {
    pub router: Router,
    pub cands: Seq<int>,
    pub mark: Mark,
}

/// The node just entered in the world `w`.
pub open spec fn entered(router: Router, indexed: bool, w: World) -> FrameView {
    FrameView {
        router,
        cands: candidates(router.routers@, indexed, w.path.pick()),
        mark: w.path.mark(),
    }
}

/// The end of a detection, seen from the bottom of a stack.
pub open spec fn under_all(stack: Seq<FrameView>, hit: Hit) -> Hit
    decreases stack.len(),
{
    if stack.len() == 0 {
        hit
    } else {
        under_all(stack.drop_last(), hit.under(stack.last().router.hoops@))
    }
}

/// What comes of a detection at the top of a stack, seen from its bottom.
pub open spec fn raised_all(stack: Seq<FrameView>, course: Course) -> Course {
    match course {
        Course::Found(hit) => Course::Found(under_all(stack, hit)),
        _ => course,
    }
}

/// Whether a detection whose last node goes on with its next child may come to `res`
/// and leave `after`.
pub open spec fn completes(
    stack: Seq<FrameView>,
    indexed: bool,
    w: World,
    res: Course,
    after: World,
) -> bool
    decreases stack.len(), 0int,
{
    stack.len() > 0 && exists|r: Course, mid: World| #[trigger]
        descends(
            stack.last().router,
            indexed,
            stack.last().mark,
            stack.last().cands,
            w,
            r,
            mid,
        ) && goes_up(stack.drop_last(), indexed, r, mid, res, after)
}

/// Whether a detection may come to `res` and leave `after` once the node above the
/// given stack has come to `r` and left `w`.
pub open spec fn goes_up(
    stack: Seq<FrameView>,
    indexed: bool,
    r: Course,
    w: World,
    res: Course,
    after: World,
) -> bool
    decreases stack.len(), 1int,
{
    if r is Nothing && stack.len() > 0 {
        completes(stack, indexed, rolled_back(w, stack.last().mark), res, after)
    } else {
        res == raised_all(stack, r) && after == w
    }
}

/// What comes of a node whose filters do not let the request pass.
pub open spec fn stopped(verdict: Verdict) -> Course {
    match verdict {
        Verdict::Waits(key) => Course::Waits(key),
        _ => Course::Nothing,
    }
}

/// Whether a detection may come to `res` and leave `after` once the filters of
/// `router`, the node to be put on the stack, have come to `verdict` and left `w`.
pub open spec fn settles(
    stack: Seq<FrameView>,
    router: Router,
    indexed: bool,
    verdict: Verdict,
    w: World,
    res: Course,
    after: World,
) -> bool {
    if verdict is Pass {
        completes(stack.push(entered(router, indexed, w)), indexed, w, res, after)
    } else {
        goes_up(stack, indexed, stopped(verdict), w, res, after)
    }
}

/// Whether a detection that tries `router` next may come to `res` and leave `after`.
pub open spec fn tries(
    stack: Seq<FrameView>,
    router: Router,
    indexed: bool,
    w: World,
    res: Course,
    after: World,
) -> bool {
    exists|r: Course, mid: World| #[trigger]
        detects(router, indexed, w, r, mid) && goes_up(stack, indexed, r, mid, res, after)
}

/// What comes of a node once its filters have answered comes of trying the node.
pub proof fn lemma_settles_is_try(
    stack: Seq<FrameView>,
    router: Router,
    indexed: bool,
    w: World,
    verdict: Verdict,
    mid: World,
    res: Course,
    after: World,
)
    requires
        filters_outcome(router.filters@, 0, w, verdict, mid),
        settles(stack, router, indexed, verdict, mid, res, after),
    ensures
        tries(stack, router, indexed, w, res, after),
{
    if verdict is Pass {
        let frame = entered(router, indexed, mid);
        let above = stack.push(frame);
        assert(above.drop_last() =~= stack);
        let (r, end) = choose|r: Course, end: World| #[trigger]
            descends(
                above.last().router,
                indexed,
                above.last().mark,
                above.last().cands,
                mid,
                r,
                end,
            ) && goes_up(above.drop_last(), indexed, r, end, res, after);
        assert(detects(router, indexed, w, r, end));
    } else {
        assert(detects(router, indexed, w, stopped(verdict), mid));
    }
}

/// The stack after the last node has taken its next child to try.
pub open spec fn advanced(stack: Seq<FrameView>) -> Seq<FrameView> {
    let top = stack.last();
    stack.drop_last().push(FrameView { cands: top.cands.drop_first(), ..top })
}

/// What comes of trying the next child comes of the stack.
pub proof fn lemma_try_completes(
    stack: Seq<FrameView>,
    indexed: bool,
    w: World,
    res: Course,
    after: World,
)
    requires
        stack.len() > 0,
        stack.last().cands.len() > 0,
        0 <= stack.last().cands[0] < stack.last().router.routers@.len(),
        tries(
            advanced(stack),
            stack.last().router.routers@[stack.last().cands[0]],
            indexed,
            w,
            res,
            after,
        ),
    ensures
        completes(stack, indexed, w, res, after),
{
    let top = stack.last();
    let child = top.router.routers@[top.cands[0]];
    let next = advanced(stack);
    assert(next.drop_last() =~= stack.drop_last());
    let (r, mid) = choose|r: Course, mid: World| #[trigger]
        detects(child, indexed, w, r, mid) && goes_up(next, indexed, r, mid, res, after);
    let up = raised(r, top.router.hoops@);
    let back = rolled_back(mid, top.mark);
    if r is Nothing {
        let (r2, mid2) = choose|r2: Course, mid2: World| #[trigger]
            descends(
                next.last().router,
                indexed,
                next.last().mark,
                next.last().cands,
                back,
                r2,
                mid2,
            ) && goes_up(next.drop_last(), indexed, r2, mid2, res, after);
        assert(descends(top.router, indexed, top.mark, top.cands, w, r2, mid2));
    } else {
        assert(descends(top.router, indexed, top.mark, top.cands, w, up, mid));
        assert(raised_all(next, r) == raised_all(stack.drop_last(), up));
    }
}

/// What comes of the nodes below once the last node is finished comes of the stack.
pub proof fn lemma_finished_completes(
    stack: Seq<FrameView>,
    indexed: bool,
    w: World,
    r: Course,
    mid: World,
    res: Course,
    after: World,
)
    requires
        stack.len() > 0,
        stack.last().cands.len() == 0,
        finished(stack.last().router, w, r, mid),
        goes_up(stack.drop_last(), indexed, r, mid, res, after),
    ensures
        completes(stack, indexed, w, res, after),
{
    let top = stack.last();
    assert(descends(top.router, indexed, top.mark, top.cands, w, r, mid));
}

/// How many steps a detection from `router` on can take at most.
pub open spec fn weight(router: Router) -> nat
    decreases router, 1int, 0nat,
{
    1 + cands_weight(router, all_from(router.routers@.len() as int, 0))
}

/// How many steps the given children of a node can take at most.
pub open spec fn cands_weight(router: Router, cands: Seq<int>) -> nat
    decreases router, 0int, cands.len(),
{
    if cands.len() == 0 {
        0
    } else {
        (if 0 <= cands[0] < router.routers@.len() {
            weight(router.routers@[cands[0]]) + 1
        } else {
            0
        }) + cands_weight(router, cands.drop_first())
    }
}

/// How many steps the nodes on a stack can take at most.
pub open spec fn stack_weight(stack: Seq<FrameView>) -> nat
    decreases stack.len(),
{
    if stack.len() == 0 {
        0
    } else {
        stack_weight(stack.drop_last()) + 1 + cands_weight(
            stack.last().router,
            stack.last().cands,
        )
    }
}

/// Whether all candidates are children of the node.
pub open spec fn in_range(router: Router, cands: Seq<int>) -> bool {
    forall|i: int| 0 <= i < cands.len() ==> 0 <= #[trigger] cands[i] < router.routers@.len()
}

proof fn lemma_lists(router: Router, pick: Option<Seq<char>>, from: int)
    requires
        0 <= from,
    ensures
        in_range(router, admitted_from(router.routers@, pick, from)),
        in_range(router, all_from(router.routers@.len() as int, from)),
        cands_weight(router, admitted_from(router.routers@, pick, from)) <= cands_weight(
            router,
            all_from(router.routers@.len() as int, from),
        ),
    decreases router.routers@.len() - from,
{
    let n = router.routers@.len() as int;
    if from < n {
        lemma_lists(router, pick, from + 1);
        let all = all_from(n, from);
        assert(all.drop_first() =~= all_from(n, from + 1));
        if admitted(router.routers@[from], pick) {
            let some = admitted_from(router.routers@, pick, from);
            assert(some.drop_first() =~= admitted_from(router.routers@, pick, from + 1));
        }
    }
}

/// A node that is entered has its own children to try, within its weight.
pub proof fn lemma_entered(router: Router, indexed: bool, w: World)
    ensures
        in_range(router, entered(router, indexed, w).cands),
        1 + cands_weight(router, entered(router, indexed, w).cands) <= weight(router),
{
    lemma_lists(router, w.path.pick(), 0);
}

/// Taking a child off the list makes the stack lighter by more than the child weighs.
pub proof fn lemma_advanced_weight(stack: Seq<FrameView>)
    requires
        stack.len() > 0,
        stack.last().cands.len() > 0,
        0 <= stack.last().cands[0] < stack.last().router.routers@.len(),
    ensures
        stack_weight(advanced(stack)) + weight(
            stack.last().router.routers@[stack.last().cands[0]],
        ) + 1 == stack_weight(stack),
{
    assert(advanced(stack).drop_last() =~= stack.drop_last());
}

/// A node adds what its children weigh to the stack.
pub proof fn lemma_pushed_weight(stack: Seq<FrameView>, frame: FrameView)
    ensures
        stack_weight(stack.push(frame)) == stack_weight(stack) + 1 + cands_weight(
            frame.router,
            frame.cands,
        ),
{
    assert(stack.push(frame).drop_last() =~= stack);
}

} // verus!
