//! Detection of the route that takes a request.
//!
//! One walk serves both ways of detection: that over the routing tree itself, and
//! that by a compiled plan, which leaves out the children of wide nodes that the
//! next path segment rules out. The walk stops where a filter waits, and goes on
//! from there once the answer has come.

use std::sync::Arc;

use vstd::prelude::*;

use crate::dispatch::CandidateIter;
use crate::filter_plan::{verdict_of_all, FilterExecPlan, FiltersPause, Matching};
use crate::filters::{answered, earlier, said, world, Reply, Verdict, World};
use crate::http::Request;
use crate::path_state::{Mark, PathState, PathView};
use crate::plan::CompiledNode;
use crate::route_laws::{found_route_has_all_middleware_on_its_way, is_route};
use crate::router::{DetectMatched, Handler, Router};
use crate::semantics::{all_sync, detects, filters_outcome, rolled_back, valid, Course, Hit};
use crate::walk::{
    advanced, completes, entered, in_range, lemma_advanced_weight, lemma_entered,
    lemma_finished_completes, lemma_pushed_weight, lemma_settles_is_try, lemma_try_completes,
    raised_all, settles, stack_weight, under_all, FrameView,
};

verus! {

/// A node that a detection is in.
pub struct DetectFrame<'a> {
    pub router: &'a Router,
    pub plan: Option<&'a CompiledNode>,
    pub candidates: CandidateIter<'a>,
    pub original_cursor: (usize, usize),
    pub params_snapshot: (usize, bool, usize),
    pub original_matched_parts_len: usize,
}

impl<'a> View for DetectFrame<'a> {
    type V = FrameView;

    open spec fn view(&self) -> FrameView {
        FrameView {
            router: *self.router,
            cands: self.candidates.remaining(),
            mark: Mark {
                cursor: self.original_cursor,
                params: (
                    self.params_snapshot.0 as nat,
                    self.params_snapshot.1,
                    self.params_snapshot.2 as nat,
                ),
                matched_parts: self.original_matched_parts_len as nat,
            },
        }
    }
}

/// Whether a node can be walked with the given plan: the compiled one where an index
/// is used, and none where the tree itself is walked.
pub open spec fn walkable(router: Router, plan: Option<&CompiledNode>, indexed: bool) -> bool {
    valid(router) && match plan {
        Some(node) => indexed && node.plans(router),
        None => !indexed,
    }
}

impl<'a> DetectFrame<'a> {
    /// Whether a detection, with an index or without, can be in the node like this.
    pub open spec fn wf(self, indexed: bool) -> bool {
        &&& self.candidates.wf()
        &&& in_range(*self.router, self.candidates.remaining())
        &&& walkable(*self.router, self.plan, indexed)
    }

    /// Enters a node where the path stands.
    pub fn new(
        router: &'a Router,
        plan: Option<&'a CompiledNode>,
        path_state: &PathState,
    ) -> (frame: Self)
        requires
            walkable(*router, plan, plan is Some),
        ensures
            frame.wf(plan is Some),
            frame.router == router,
            frame.plan == plan,
            frame@.mark == path_state@.mark(),
            forall|w: World|
                w.path == path_state@ ==> frame@ == #[trigger] entered(*router, plan is Some, w),
    {
        let candidates = match plan {
            Some(node) => node.dispatch.candidates(path_state),
            None => CandidateIter::all(router.routers.len()),
        };
        let frame = DetectFrame {
            router,
            plan,
            candidates,
            original_cursor: path_state.cursor,
            params_snapshot: path_state.params.snapshot(),
            original_matched_parts_len: path_state.matched_parts.len(),
        };
        proof {
            let w = World { req: arbitrary(), path: path_state@, asked: seq![] };
            lemma_entered(*router, plan is Some, w);
            assert(frame@.mark == path_state@.mark());
        }
        frame
    }

    /// Takes the path back to where it stood when the node was entered.
    pub fn rollback(&self, path_state: &mut PathState)
        ensures
            final(path_state)@ == old(path_state)@.rolled_back(self@.mark),
    {
        let ghost before = path_state@;
        path_state.matched_parts.truncate(self.original_matched_parts_len);
        path_state.cursor = self.original_cursor;
        path_state.params.rollback(self.params_snapshot);
        assert(path_state@ =~= before.rolled_back(self@.mark));
    }
}

/// The nodes of a stack.
spec fn frames<'a>(stack: Seq<DetectFrame<'a>>) -> Seq<FrameView> {
    Seq::new(stack.len(), |i: int| stack[i]@)
}

spec fn stack_wf<'a>(stack: Seq<DetectFrame<'a>>, indexed: bool) -> bool {
    forall|i: int| 0 <= i < stack.len() ==> (#[trigger] stack[i]).wf(indexed)
}

/// Whether nothing that a stack leads to ever waits.
spec fn sync_stack<'a>(stack: Seq<DetectFrame<'a>>) -> bool {
    forall|i: int| 0 <= i < stack.len() ==> all_sync((#[trigger] stack[i])@.router)
}

/// What came of a detection.
pub open spec fn course_of(detection: Detection<'_>) -> Course {
    match detection {
        Detection::Done(Some(matched)) => Course::Found(
            Hit { hoops: matched.hoops@, goal: matched.goal },
        ),
        Detection::Done(None) => Course::Nothing,
        Detection::Await(pending) => Course::Waits(pending.awaited()),
    }
}

/// The middleware of the nodes of a stack, from the bottom up.
spec fn stack_hoops(stack: Seq<FrameView>) -> Seq<Arc<Handler>>
    decreases stack.len(),
{
    if stack.len() == 0 {
        seq![]
    } else {
        stack_hoops(stack.drop_last()) + stack.last().router.hoops@
    }
}

proof fn lemma_under_all(stack: Seq<FrameView>, hit: Hit)
    ensures
        under_all(stack, hit) == (Hit { hoops: stack_hoops(stack) + hit.hoops, goal: hit.goal }),
    decreases stack.len(),
{
    if stack.len() == 0 {
        assert(stack_hoops(stack) + hit.hoops =~= hit.hoops);
    } else {
        let up = hit.under(stack.last().router.hoops@);
        lemma_under_all(stack.drop_last(), up);
        assert(stack_hoops(stack.drop_last()) + up.hoops =~= stack_hoops(stack) + hit.hoops);
    }
}

/// Collects the middleware on the way down to a goal.
fn matched_from_stack<'a>(stack: &Vec<DetectFrame<'a>>, goal: &Arc<Handler>) -> (matched:
    DetectMatched)
    ensures
        matched.hoops@ == stack_hoops(frames(stack@)),
        matched.goal == *goal,
{
    let mut hoops: Vec<Arc<Handler>> = Vec::new();
    let mut i: usize = 0;
    while i < stack.len()
        invariant
            i <= stack.len(),
            hoops@ == stack_hoops(frames(stack@).take(i as int)),
        decreases stack.len() - i,
    {
        let ghost before = hoops@;
        let router = stack[i].router;
        let mut j: usize = 0;
        while j < router.hoops.len()
            invariant
                j <= router.hoops.len(),
                hoops@ == before + router.hoops@.take(j as int),
            decreases router.hoops.len() - j,
        {
            hoops.push(router.hoops[j].clone());
            j = j + 1;
            assert(hoops@ =~= before + router.hoops@.take(j as int));
        }
        proof {
            let upto = frames(stack@).take(i + 1);
            assert(upto.drop_last() =~= frames(stack@).take(i as int));
            assert(upto.last().router == *router);
            assert(router.hoops@.take(j as int) =~= router.hoops@);
        }
        i = i + 1;
    }
    assert(frames(stack@).take(i as int) =~= frames(stack@));
    DetectMatched { hoops, goal: goal.clone() }
}

/// How far a detection came.
pub enum Detection<'a> {
    /// The route that takes the request, where there is one.
    Done(Option<DetectMatched>),
    /// A filter waits for an answer from outside.
    Await(PendingDetect<'a>),
}

/// A detection that stopped because a filter waits.
pub struct PendingDetect<'a> {
    stack: Vec<DetectFrame<'a>>,
    router: &'a Router,
    plan: Option<&'a CompiledNode>,
    stop: FiltersPause,
}

impl<'a> PendingDetect<'a> {
    /// Whether the detection uses an index.
    pub closed spec fn indexed(self) -> bool {
        self.plan is Some
    }

    /// Whether the detection can go on from here.
    pub closed spec fn wf(self) -> bool {
        &&& stack_wf(self.stack@, self.indexed())
        &&& walkable(*self.router, self.plan, self.indexed())
        &&& self.stop.fits(self.router.filters@)
    }

    /// The outside test whose answer the detection waits for.
    pub closed spec fn awaited(self) -> usize {
        self.stop.pause.key
    }

    /// Whether the detection may come to `res` and leave `after` once the outside
    /// test has said `answer` and left `w`.
    pub closed spec fn resumed(
        self,
        answer: bool,
        w: World,
        res: Course,
        after: World,
    ) -> bool {
        exists|v: Verdict, mid: World| #[trigger]
            self.stop.resumed(self.router.filters@, answer, w, v, mid) && settles(
                frames(self.stack@),
                *self.router,
                self.indexed(),
                v,
                mid,
                res,
                after,
            )
    }
}

/// Evaluates the filters of a node.
fn test_node(
    router: &Router,
    plan: Option<&CompiledNode>,
    req: &mut Request,
    path_state: &mut PathState,
    Ghost(indexed): Ghost<bool>,
) -> (matching: Matching)
    requires
        walkable(*router, plan, indexed),
    ensures
        all_sync(*router) ==> matching is Done,
        forall|asked: Seq<Reply>|
            filters_outcome(
                router.filters@,
                0,
                #[trigger] world(*old(req), *old(path_state), asked),
                verdict_of_all(matching),
                world(*final(req), *final(path_state), asked),
            ),
        matching matches Matching::Await(stop) ==> stop.fits(router.filters@) && forall|
            answer: bool,
            w: World,
            verdict: Verdict,
            after: World,
        |
            answered(w, *final(req), final(path_state)@, stop.pause.key, answer)
                && #[trigger] stop.resumed(router.filters@, answer, w, verdict, after)
                ==> filters_outcome(
                router.filters@,
                0,
                world(*old(req), *old(path_state), earlier(w)),
                verdict,
                after,
            ),
{
    match plan {
        Some(node) => node.filters.matches(&router.filters, req, path_state),
        None => FilterExecPlan::compile(&router.filters).matches(&router.filters, req, path_state),
    }
}

/// Walks on from the last node of a stack.
fn walk<'a>(
    start: Vec<DetectFrame<'a>>,
    req: &mut Request,
    path_state: &mut PathState,
    Ghost(indexed): Ghost<bool>,
) -> (detection: Detection<'a>)
    requires
        start@.len() > 0,
        stack_wf(start@, indexed),
    ensures
        sync_stack(start@) ==> detection is Done,
        forall|asked: Seq<Reply>|
            completes(
                frames(start@),
                indexed,
                #[trigger] world(*old(req), *old(path_state), asked),
                course_of(detection),
                world(*final(req), *final(path_state), asked),
            ),
        detection matches Detection::Await(pending) ==> pending.wf() && pending.indexed()
            == indexed && forall|
            answer: bool,
            w: World,
            res: Course,
            after: World,
        |
            answered(w, *final(req), final(path_state)@, pending.awaited(), answer)
                && #[trigger] pending.resumed(answer, w, res, after) ==> completes(
                frames(start@),
                indexed,
                world(*old(req), *old(path_state), earlier(w)),
                res,
                after,
            ),
{
    let ghost initial = frames(start@);
    let mut stack = start;
    loop
        invariant
            initial == frames(start@),
            sync_stack(start@) ==> sync_stack(stack@),
            stack@.len() > 0,
            stack_wf(stack@, indexed),
            forall|asked: Seq<Reply>, res: Course, after: World| #[trigger]
                completes(
                    frames(stack@),
                    indexed,
                    world(*req, *path_state, asked),
                    res,
                    after,
                ) ==> completes(
                    initial,
                    indexed,
                    world(*old(req), *old(path_state), asked),
                    res,
                    after,
                ),
        decreases stack_weight(frames(stack@)),
    {
        let ghost here = frames(stack@);
        let ghost req_here = *req;
        let ghost path_here = *path_state;
        let top = stack.len() - 1;
        let ghost before = stack@;
        let candidate = stack[top].candidates.next();
        proof {
            assert(here.last() == before[top as int]@);
        }
        match candidate {
            Some(index) => {
                let ghost next = frames(stack@);
                proof {
                    assert(in_range(here.last().router, here.last().cands));
                    assert(here.last().cands[0] == index);
                    assert(next =~= advanced(here));
                    assert(stack_wf(stack@, indexed)) by {
                        assert forall|i: int| 0 <= i < stack@.len() implies (
                        #[trigger] stack@[i]).wf(indexed) by {
                            assert(before[i].wf(indexed));
                        }
                    }
                }
                let child = &stack[top].router.routers[index];
                let child_plan = match stack[top].plan {
                    Some(node) => Some(&node.children[index]),
                    None => None,
                };
                proof {
                    assert(stack@[top as int].wf(indexed));
                    assert(walkable(*child, child_plan, indexed));
                }
                let matching = test_node(child, child_plan, req, path_state, Ghost(indexed));
                match matching {
                    Matching::Await(stop) => {
                        let pending = PendingDetect {
                            stack,
                            router: child,
                            plan: child_plan,
                            stop,
                        };
                        assert forall|answer: bool, w: World, res: Course, after: World|
                            answered(w, *req, path_state@, pending.awaited(), answer)
                                && #[trigger] pending.resumed(
                                answer,
                                w,
                                res,
                                after,
                            ) implies completes(
                            initial,
                            indexed,
                            world(*old(req), *old(path_state), earlier(w)),
                            res,
                            after,
                        ) by {
                            let (v, mid) = choose|v: Verdict, mid: World| #[trigger]
                                pending.stop.resumed(child.filters@, answer, w, v, mid) && settles(
                                    frames(pending.stack@),
                                    *child,
                                    pending.indexed(),
                                    v,
                                    mid,
                                    res,
                                    after,
                                );
                            let at = world(req_here, path_here, earlier(w));
                            lemma_settles_is_try(next, *child, indexed, at, v, mid, res, after);
                            lemma_try_completes(here, indexed, at, res, after);
                        }
                        assert forall|asked: Seq<Reply>| completes(
                            initial,
                            indexed,
                            #[trigger] world(*old(req), *old(path_state), asked),
                            Course::Waits(pending.awaited()),
                            world(*req, *path_state, asked),
                        ) by {
                            let at = world(req_here, path_here, asked);
                            let mid = world(*req, *path_state, asked);
                            let v = Verdict::Waits(pending.awaited());
                            let res = Course::Waits(pending.awaited());
                            lemma_settles_is_try(next, *child, indexed, at, v, mid, res, mid);
                            lemma_try_completes(here, indexed, at, res, mid);
                        }
                        return Detection::Await(pending);
                    },
                    Matching::Done(true) => {
                        let frame = DetectFrame::new(child, child_plan, path_state);
                        let ghost entry = frame@;
                        stack.push(frame);
                        proof {
                            assert(frames(stack@) =~= next.push(entry));
                            assert forall|asked: Seq<Reply>, res: Course, after: World|
                                #[trigger] completes(
                                    frames(stack@),
                                    indexed,
                                    world(*req, *path_state, asked),
                                    res,
                                    after,
                                ) implies completes(
                                initial,
                                indexed,
                                world(*old(req), *old(path_state), asked),
                                res,
                                after,
                            ) by {
                                let at = world(req_here, path_here, asked);
                                let mid = world(*req, *path_state, asked);
                                assert(entry == entered(*child, indexed, mid));
                                lemma_settles_is_try(
                                    next,
                                    *child,
                                    indexed,
                                    at,
                                    Verdict::Pass,
                                    mid,
                                    res,
                                    after,
                                );
                                lemma_try_completes(here, indexed, at, res, after);
                            }
                            let mid = world(*req, *path_state, seq![]);
                            assert(entry == entered(*child, indexed, mid));
                            lemma_entered(*child, indexed, mid);
                            lemma_advanced_weight(here);
                            lemma_pushed_weight(next, entry);
                        }
                    },
                    Matching::Done(false) => {
                        let ghost path_there = *path_state;
                        stack[top].rollback(path_state);
                        proof {
                            assert forall|asked: Seq<Reply>, res: Course, after: World|
                                #[trigger] completes(
                                    frames(stack@),
                                    indexed,
                                    world(*req, *path_state, asked),
                                    res,
                                    after,
                                ) implies completes(
                                initial,
                                indexed,
                                world(*old(req), *old(path_state), asked),
                                res,
                                after,
                            ) by {
                                let at = world(req_here, path_here, asked);
                                let mid = world(*req, path_there, asked);
                                assert(world(*req, *path_state, asked) == rolled_back(
                                    mid,
                                    next.last().mark,
                                ));
                                lemma_settles_is_try(
                                    next,
                                    *child,
                                    indexed,
                                    at,
                                    Verdict::Fail,
                                    mid,
                                    res,
                                    after,
                                );
                                lemma_try_completes(here, indexed, at, res, after);
                            }
                            lemma_advanced_weight(here);
                        }
                    },
                }
            },
            None => {
                proof {
                    assert(frames(stack@) =~= here);
                    assert(stack_wf(stack@, indexed)) by {
                        assert forall|i: int| 0 <= i < stack@.len() implies (
                        #[trigger] stack@[i]).wf(indexed) by {
                            assert(before[i].wf(indexed));
                        }
                    }
                }
                if path_state.is_ended() {
                    path_state.once_ended = true;
                    assert(path_state@ =~= (PathView { once_ended: true, ..path_here@ }));
                    if let Some(goal) = &stack[top].router.goal {
                        let matched = matched_from_stack(&stack, goal);
                        let ghost course = Course::Found(
                            Hit { hoops: matched.hoops@, goal: matched.goal },
                        );
                        assert forall|asked: Seq<Reply>| completes(
                            initial,
                            indexed,
                            #[trigger] world(*old(req), *old(path_state), asked),
                            course,
                            world(*req, *path_state, asked),
                        ) by {
                            let at = world(req_here, path_here, asked);
                            let end = world(*req, *path_state, asked);
                            let hit = Hit { hoops: here.last().router.hoops@, goal: *goal };
                            let found = Course::Found(hit);
                            lemma_under_all(here.drop_last(), hit);
                            assert(course == raised_all(here.drop_last(), found));
                            lemma_finished_completes(here, indexed, at, found, end, course, end);
                        }
                        return Detection::Done(Some(matched));
                    }
                }
                let ghost path_there = *path_state;
                let _ = stack.pop();
                proof {
                    assert(frames(stack@) =~= here.drop_last());
                }
                if stack.len() == 0 {
                    assert forall|asked: Seq<Reply>| completes(
                        initial,
                        indexed,
                        #[trigger] world(*old(req), *old(path_state), asked),
                        Course::Nothing,
                        world(*req, *path_state, asked),
                    ) by {
                        let at = world(req_here, path_here, asked);
                        let end = world(*req, *path_state, asked);
                        let none = Course::Nothing;
                        lemma_finished_completes(here, indexed, at, none, end, none, end);
                    }
                    return Detection::Done(None);
                }
                let parent = stack.len() - 1;
                stack[parent].rollback(path_state);
                proof {
                    assert forall|asked: Seq<Reply>, res: Course, after: World|
                        #[trigger] completes(
                            frames(stack@),
                            indexed,
                            world(*req, *path_state, asked),
                            res,
                            after,
                        ) implies completes(
                        initial,
                        indexed,
                        world(*old(req), *old(path_state), asked),
                        res,
                        after,
                    ) by {
                        let at = world(req_here, path_here, asked);
                        let end = world(*req, path_there, asked);
                        assert(world(*req, *path_state, asked) == rolled_back(
                            end,
                            here.drop_last().last().mark,
                        ));
                        let none = Course::Nothing;
                        lemma_finished_completes(here, indexed, at, none, end, res, after);
                    }
                }
            },
        }
    }
}

/// Goes on once the filters of the node above a stack have answered.
fn settle<'a>(
    start: Vec<DetectFrame<'a>>,
    router: &'a Router,
    plan: Option<&'a CompiledNode>,
    matched: bool,
    req: &mut Request,
    path_state: &mut PathState,
    Ghost(indexed): Ghost<bool>,
) -> (detection: Detection<'a>)
    requires
        stack_wf(start@, indexed),
        walkable(*router, plan, indexed),
    ensures
        sync_stack(start@) && all_sync(*router) ==> detection is Done,
        forall|asked: Seq<Reply>|
            settles(
                frames(start@),
                *router,
                indexed,
                said(matched),
                #[trigger] world(*old(req), *old(path_state), asked),
                course_of(detection),
                world(*final(req), *final(path_state), asked),
            ),
        detection matches Detection::Await(pending) ==> pending.wf() && pending.indexed()
            == indexed && forall|
            answer: bool,
            w: World,
            res: Course,
            after: World,
        |
            answered(w, *final(req), final(path_state)@, pending.awaited(), answer)
                && #[trigger] pending.resumed(answer, w, res, after) ==> settles(
                frames(start@),
                *router,
                indexed,
                said(matched),
                world(*old(req), *old(path_state), earlier(w)),
                res,
                after,
            ),
{
    let ghost below = frames(start@);
    let mut stack = start;
    if matched {
        let frame = DetectFrame::new(router, plan, path_state);
        let ghost entry = frame@;
        stack.push(frame);
        proof {
            assert(frames(stack@) =~= below.push(entry));
            assert forall|asked: Seq<Reply>| entry == entered(
                *router,
                indexed,
                #[trigger] world(*old(req), *old(path_state), asked),
            ) by {}
        }
        walk(stack, req, path_state, Ghost(indexed))
    } else if stack.len() == 0 {
        Detection::Done(None)
    } else {
        let top = stack.len() - 1;
        stack[top].rollback(path_state);
        assert forall|asked: Seq<Reply>| world(*req, *path_state, asked) == rolled_back(
            #[trigger] world(*old(req), *old(path_state), asked),
            below.last().mark,
        ) by {}
        walk(stack, req, path_state, Ghost(indexed))
    }
}

/// Starts a detection.
pub(crate) fn begin<'a>(
    router: &'a Router,
    plan: Option<&'a CompiledNode>,
    req: &mut Request,
    path_state: &mut PathState,
    Ghost(indexed): Ghost<bool>,
) -> (detection: Detection<'a>)
    requires
        walkable(*router, plan, indexed),
    ensures
        all_sync(*router) ==> detection is Done,
        forall|asked: Seq<Reply>|
            detects(
                *router,
                indexed,
                #[trigger] world(*old(req), *old(path_state), asked),
                course_of(detection),
                world(*final(req), *final(path_state), asked),
            ),
        detection matches Detection::Await(pending) ==> pending.wf() && pending.indexed()
            == indexed && forall|
            answer: bool,
            w: World,
            res: Course,
            after: World,
        |
            answered(w, *final(req), final(path_state)@, pending.awaited(), answer)
                && #[trigger] pending.resumed(answer, w, res, after) ==> detects(
                *router,
                indexed,
                world(*old(req), *old(path_state), earlier(w)),
                res,
                after,
            ),
{
    let stack: Vec<DetectFrame<'a>> = Vec::new();
    let ghost none = frames(stack@);
    let matching = test_node(router, plan, req, path_state, Ghost(indexed));
    let ghost req_there = *req;
    let ghost path_there = *path_state;
    match matching {
        Matching::Await(stop) => {
            let pending = PendingDetect { stack, router, plan, stop };
            assert forall|answer: bool, w: World, res: Course, after: World|
                answered(w, *req, path_state@, pending.awaited(), answer)
                    && #[trigger] pending.resumed(
                    answer,
                    w,
                    res,
                    after,
                ) implies detects(
                *router,
                indexed,
                world(*old(req), *old(path_state), earlier(w)),
                res,
                after,
            ) by {
                let (v, mid) = choose|v: Verdict, mid: World| #[trigger]
                    pending.stop.resumed(router.filters@, answer, w, v, mid) && settles(
                        frames(pending.stack@),
                        *router,
                        pending.indexed(),
                        v,
                        mid,
                        res,
                        after,
                    );
                lemma_settles_is_try(
                    none,
                    *router,
                    indexed,
                    world(*old(req), *old(path_state), earlier(w)),
                    v,
                    mid,
                    res,
                    after,
                );
            }
            assert forall|asked: Seq<Reply>| detects(
                *router,
                indexed,
                #[trigger] world(*old(req), *old(path_state), asked),
                Course::Waits(pending.awaited()),
                world(*req, *path_state, asked),
            ) by {
                lemma_settles_is_try(
                    none,
                    *router,
                    indexed,
                    world(*old(req), *old(path_state), asked),
                    Verdict::Waits(pending.awaited()),
                    world(*req, *path_state, asked),
                    Course::Waits(pending.awaited()),
                    world(*req, *path_state, asked),
                );
            }
            Detection::Await(pending)
        },
        Matching::Done(matched) => {
            let detection = settle(stack, router, plan, matched, req, path_state, Ghost(indexed));
            proof {
                assert forall|asked: Seq<Reply>| detects(
                    *router,
                    indexed,
                    #[trigger] world(*old(req), *old(path_state), asked),
                    course_of(detection),
                    world(*req, *path_state, asked),
                ) by {
                    lemma_settles_is_try(
                        none,
                        *router,
                        indexed,
                        world(*old(req), *old(path_state), asked),
                        said(matched),
                        world(req_there, path_there, asked),
                        course_of(detection),
                        world(*req, *path_state, asked),
                    );
                }
                if let Detection::Await(pending) = &detection {
                    assert forall|answer: bool, w: World, res: Course, after: World|
                        answered(w, *req, path_state@, pending.awaited(), answer)
                            && #[trigger] pending.resumed(
                            answer,
                            w,
                            res,
                            after,
                        ) implies detects(
                        *router,
                        indexed,
                        world(*old(req), *old(path_state), earlier(w)),
                        res,
                        after,
                    ) by {
                        lemma_settles_is_try(
                            none,
                            *router,
                            indexed,
                            world(*old(req), *old(path_state), earlier(w)),
                            said(matched),
                            world(req_there, path_there, earlier(w)),
                            res,
                            after,
                        );
                    }
                }
            }
            detection
        },
    }
}

impl<'a> PendingDetect<'a> {
    /// The outside test whose answer the detection waits for.
    pub fn key(&self) -> (key: usize)
        ensures
            key == self.awaited(),
    {
        self.stop.pause.key
    }

    /// Goes on with the detection, now that the outside test has answered.
    pub fn resume(
        self,
        answer: bool,
        req: &mut Request,
        path_state: &mut PathState,
    ) -> (detection: Detection<'a>)
        requires
            self.wf(),
        ensures
            forall|asked: Seq<Reply>|
                self.resumed(
                    answer,
                    #[trigger] world(*old(req), *old(path_state), asked),
                    course_of(detection),
                    world(*final(req), *final(path_state), asked),
                ),
            detection matches Detection::Await(next) ==> next.wf() && next.indexed()
                == self.indexed() && forall|
                answer2: bool,
                w: World,
                res: Course,
                after: World,
            |
                answered(w, *final(req), final(path_state)@, next.awaited(), answer2)
                    && #[trigger] next.resumed(answer2, w, res, after) ==> self.resumed(
                    answer,
                    world(*old(req), *old(path_state), earlier(w)),
                    res,
                    after,
                ),
    {
        let PendingDetect { stack, router, plan, stop } = self;
        let ghost indexed = self.indexed();
        let ghost below = frames(stack@);
        let matching = match plan {
            Some(node) => node.filters.resume(&router.filters, stop, answer, req, path_state),
            None => FilterExecPlan::compile(&router.filters).resume(
                &router.filters,
                stop,
                answer,
                req,
                path_state,
            ),
        };
        let ghost req_there = *req;
        let ghost path_there = *path_state;
        match matching {
            Matching::Await(stop) => {
                let next = PendingDetect { stack, router, plan, stop };
                assert forall|answer2: bool, w: World, res: Course, after: World|
                    answered(w, *req, path_state@, next.awaited(), answer2)
                        && #[trigger] next.resumed(
                        answer2,
                        w,
                        res,
                        after,
                    ) implies self.resumed(
                    answer,
                    world(*old(req), *old(path_state), earlier(w)),
                    res,
                    after,
                ) by {
                    let (v, mid) = choose|v: Verdict, mid: World| #[trigger]
                        next.stop.resumed(router.filters@, answer2, w, v, mid) && settles(
                            frames(next.stack@),
                            *router,
                            next.indexed(),
                            v,
                            mid,
                            res,
                            after,
                        );
                    assert(self.stop.resumed(
                        router.filters@,
                        answer,
                        world(*old(req), *old(path_state), earlier(w)),
                        v,
                        mid,
                    ));
                }
                assert forall|asked: Seq<Reply>| self.resumed(
                    answer,
                    #[trigger] world(*old(req), *old(path_state), asked),
                    Course::Waits(next.awaited()),
                    world(*req, *path_state, asked),
                ) by {
                    let v = Verdict::Waits(next.awaited());
                    assert(self.stop.resumed(
                        router.filters@,
                        answer,
                        world(*old(req), *old(path_state), asked),
                        v,
                        world(*req, *path_state, asked),
                    ));
                }
                Detection::Await(next)
            },
            Matching::Done(matched) => {
                let detection = settle(
                    stack,
                    router,
                    plan,
                    matched,
                    req,
                    path_state,
                    Ghost(indexed),
                );
                proof {
                    assert forall|asked: Seq<Reply>| self.resumed(
                        answer,
                        #[trigger] world(*old(req), *old(path_state), asked),
                        course_of(detection),
                        world(*req, *path_state, asked),
                    ) by {
                        assert(self.stop.resumed(
                            router.filters@,
                            answer,
                            world(*old(req), *old(path_state), asked),
                            said(matched),
                            world(req_there, path_there, asked),
                        ));
                    }
                    if let Detection::Await(next) = &detection {
                        assert forall|answer2: bool, w: World, res: Course, after: World|
                            answered(w, *req, path_state@, next.awaited(), answer2)
                                && #[trigger] next.resumed(
                                answer2,
                                w,
                                res,
                                after,
                            ) implies self.resumed(
                            answer,
                            world(*old(req), *old(path_state), earlier(w)),
                            res,
                            after,
                        ) by {
                            assert(self.stop.resumed(
                                router.filters@,
                                answer,
                                world(*old(req), *old(path_state), earlier(w)),
                                said(matched),
                                world(req_there, path_there, earlier(w)),
                            ));
                        }
                    }
                }
                detection
            },
        }
    }
}

impl Router {
    /// Detects the first route below this node that takes the request: depth first,
    /// the children in the order in which they were registered.
    pub fn detect<'a>(&'a self, req: &mut Request, path_state: &mut PathState) -> (detection:
        Detection<'a>)
        requires
            valid(*self),
        ensures
            all_sync(*self) ==> detection is Done,
            detection matches Detection::Done(Some(matched)) ==> is_route(
                *self,
                matched.hoops@,
                matched.goal,
            ) && final(path_state)@.is_ended(),
            forall|asked: Seq<Reply>|
                detects(
                    *self,
                    false,
                    #[trigger] world(*old(req), *old(path_state), asked),
                    course_of(detection),
                    world(*final(req), *final(path_state), asked),
                ),
            detection matches Detection::Await(pending) ==> pending.wf() && forall|
                answer: bool,
                w: World,
                res: Course,
                after: World,
            |
                answered(w, *final(req), final(path_state)@, pending.awaited(), answer)
                    && #[trigger] pending.resumed(answer, w, res, after) ==> detects(
                    *self,
                    false,
                    world(*old(req), *old(path_state), earlier(w)),
                    res,
                    after,
                ),
    {
        let detection = begin(self, None, req, path_state, Ghost(false));
        proof {
            if let Detection::Done(Some(matched)) = &detection {
                found_route_has_all_middleware_on_its_way(
                    *self,
                    false,
                    world(*old(req), *old(path_state), seq![]),
                    Hit { hoops: matched.hoops@, goal: matched.goal },
                    world(*req, *path_state, seq![]),
                );
            }
        }
        detection
    }
}

} // verus!
