//! Routers that are compiled for detection.

use std::sync::Arc;

use vstd::prelude::*;

use crate::conduct::{steady, tame};
use crate::detect::{begin, course_of, Detection};
use crate::filters::{answered, earlier, world, Reply, World};
use crate::http::Request;
use crate::laws::{compiled_detection_is_tree_detection, compiled_detects};
use crate::path_state::{Mark, PathState};
use crate::plan::{has_wide, lemma_plan_hints, CompiledNode};
use crate::route_laws::{found_route_has_all_middleware_on_its_way, is_route};
use crate::router::Router;
use crate::semantics::{
    all_sync, candidates, descends, detects, filters_outcome, lemma_first_child, lemma_own_filters,
    raised, rolled_back, valid, Course, Hit,
};

verus! {

proof fn lemma_narrow_descends(
    router: Router,
    mark: Mark,
    cands: Seq<int>,
    w: World,
    course: Course,
    after: World,
)
    requires
        !has_wide(router),
        descends(router, false, mark, cands, w, course, after),
    ensures
        descends(router, true, mark, cands, w, course, after),
    decreases router, 0int, cands.len(),
{
    if cands.len() > 0 {
        let child = router.routers@[cands[0]];
        let rest = cands.drop_first();
        let (r, mid) = lemma_first_child(router, false, mark, cands, w, course, after);
        let up = raised(r, router.hoops@);
        let back = rolled_back(mid, mark);
        lemma_narrow_detects(child, w, r, mid);
        if r is Nothing {
            lemma_narrow_descends(router, mark, rest, back, course, after);
        }
    }
}

proof fn lemma_narrow_detects(router: Router, w: World, course: Course, after: World)
    requires
        !has_wide(router),
        detects(router, false, w, course, after),
    ensures
        detects(router, true, w, course, after),
    decreases router, 1int, 0nat,
{
    let (v, mid) = lemma_own_filters(router, false, w, course, after);
    if v is Pass {
        lemma_narrow_descends(
            router,
            mid.path.mark(),
            candidates(router.routers@, false, mid.path.pick()),
            mid,
            course,
            after,
        );
    }
    assert(filters_outcome(router.filters@, 0, w, v, mid));
}

/// An immutable execution plan compiled from a [`Router`].
///
/// `CompiledRouter` keeps the source router alive and builds a lightweight,
/// parallel plan over it. The source tree remains the owner of filters,
/// children, middleware, and goal handlers; the plan only records how filters
/// can be executed and, for sufficiently wide nodes, which children can be
/// ruled out by their first static path segment.
///
/// Detection preserves the source router's depth-first, registration-order
/// semantics. In particular, custom and dynamic children remain ordered with
/// exact static children, and filters that wait are still evaluated in the
/// same order as on [`Router`].
pub struct CompiledRouter {
    source: Arc<Router>,
    // Narrow trees use `Router` directly and retain no parallel plan.
    root: Option<CompiledNode>,
}

impl CompiledRouter {
    /// The routing tree that the plan was compiled from.
    pub closed spec fn tree(self) -> Router {
        *self.source
    }

    #[verifier::type_invariant]
    spec fn plan_fits(self) -> bool {
        match self.root {
            Some(node) => has_wide(*self.source) && node.plans(*self.source),
            None => !has_wide(*self.source),
        }
    }

    /// Compile an immutable routing plan from a router.
    ///
    /// The compiled plan owns an [`Arc`] to `router`, so safe code cannot mutate
    /// the source tree while this plan exists. Build or otherwise mutate the
    /// router before calling this function.
    #[must_use]
    pub fn new<T: Into<Arc<Router>>>(router: T) -> (compiled: Self)
        ensures
            exists|source: Arc<Router>|
                call_ensures(T::into, (router,), source) && compiled.tree() == *source,
    {
        let source: Arc<Router> = router.into();
        let root = if CompiledNode::contains_index(&source) {
            Some(CompiledNode::compile(&source))
        } else {
            None
        };
        let compiled = CompiledRouter { source, root };
        compiled
    }

    /// Return the source router used to build this plan.
    #[must_use]
    pub fn router(&self) -> (router: &Router)
        ensures
            *router == self.tree(),
    {
        &self.source
    }

    /// Return a shared reference-counted handle to the source router.
    #[must_use]
    pub fn router_arc(&self) -> (router: Arc<Router>)
        ensures
            *router == self.tree(),
    {
        self.source.clone()
    }

    /// Whether some node is wide enough for the plan to use an index.
    pub fn uses_indexed_dispatch(&self) -> (r: bool)
        ensures
            r == has_wide(self.tree()),
    {
        proof {
            use_type_invariant(self);
        }
        self.root.is_some()
    }

    /// Detect the first route matching the request.
    ///
    /// This has the same DFS and rollback behavior as [`Router::detect`], while
    /// synchronous filters use [`Filter::filter_sync`].
    pub fn detect<'a>(
        &'a self,
        req: &mut Request,
        path_state: &mut PathState,
    ) -> (detection: Detection<'a>)
        requires
            valid(self.tree()),
        ensures
            all_sync(self.tree()) ==> detection is Done,
            detection matches Detection::Done(Some(matched)) ==> is_route(
                self.tree(),
                matched.hoops@,
                matched.goal,
            ) && final(path_state)@.is_ended(),
            forall|asked: Seq<Reply>|
                compiled_detects(
                    self.tree(),
                    #[trigger] world(*old(req), *old(path_state), asked),
                    course_of(detection),
                    world(*final(req), *final(path_state), asked),
                ),
            detection matches Detection::Await(pending) ==> pending.wf() && forall|
                answer: bool,
                w: World,
                course: Course,
                after: World,
            |
                answered(w, *final(req), final(path_state)@, pending.awaited(), answer)
                    && #[trigger] pending.resumed(answer, w, course, after)
                    ==> compiled_detects(
                    self.tree(),
                    world(*old(req), *old(path_state), earlier(w)),
                    course,
                    after,
                ),
    {
        proof {
            use_type_invariant(self);
        }
        match &self.root {
            None => {
                proof {
                    assert forall|w: World, course: Course, after: World| #[trigger]
                        detects(*self.source, false, w, course, after) implies compiled_detects(
                        *self.source,
                        w,
                        course,
                        after,
                    ) by {
                        lemma_narrow_detects(self.tree(), w, course, after);
                    }
                }
                self.source.detect(req, path_state)
            },
            Some(_) => self.detect_indexed(req, path_state),
        }
    }

    /// Detect the first route matching the request by the compiled plan.
    pub fn detect_indexed<'a>(
        &'a self,
        req: &mut Request,
        path_state: &mut PathState,
    ) -> (detection: Detection<'a>)
        requires
            valid(self.tree()),
            has_wide(self.tree()),
        ensures
            all_sync(self.tree()) ==> detection is Done,
            detection matches Detection::Done(Some(matched)) ==> is_route(
                self.tree(),
                matched.hoops@,
                matched.goal,
            ) && final(path_state)@.is_ended(),
            forall|asked: Seq<Reply>|
                compiled_detects(
                    self.tree(),
                    #[trigger] world(*old(req), *old(path_state), asked),
                    course_of(detection),
                    world(*final(req), *final(path_state), asked),
                ),
            detection matches Detection::Await(pending) ==> pending.wf() && forall|
                answer: bool,
                w: World,
                course: Course,
                after: World,
            |
                answered(w, *final(req), final(path_state)@, pending.awaited(), answer)
                    && #[trigger] pending.resumed(answer, w, course, after)
                    ==> compiled_detects(
                    self.tree(),
                    world(*old(req), *old(path_state), earlier(w)),
                    course,
                    after,
                ),
    {
        proof {
            use_type_invariant(self);
        }
        let root = match &self.root {
            Some(node) => Some(node),
            None => None,
        };
        proof {
            lemma_plan_hints(self.root->0, self.tree());
            assert forall|w: World, course: Course, after: World| #[trigger]
                detects(*self.source, true, w, course, after) implies compiled_detects(
                *self.source,
                w,
                course,
                after,
            ) by {
                if steady(self.tree()) && tame(after.asked) {
                    compiled_detection_is_tree_detection(self.tree(), w, course, after);
                }
            }
        }
        let detection = begin(&self.source, root, req, path_state, Ghost(true));
        proof {
            if let Detection::Done(Some(matched)) = &detection {
                found_route_has_all_middleware_on_its_way(
                    self.tree(),
                    true,
                    world(*old(req), *old(path_state), seq![]),
                    Hit { hoops: matched.hoops@, goal: matched.goal },
                    world(*req, *path_state, seq![]),
                );
            }
        }
        detection
    }
}

impl From<Router> for CompiledRouter {
    fn from(router: Router) -> (compiled: Self)
        ensures
            compiled.tree() == router,
    {
        Self::new(router)
    }
}

impl vstd::std_specs::convert::FromSpecImpl<Router> for CompiledRouter {
    open spec fn obeys_from_spec() -> bool {
        false
    }

    open spec fn from_spec(router: Router) -> CompiledRouter {
        arbitrary()
    }
}

impl From<Arc<Router>> for CompiledRouter {
    fn from(router: Arc<Router>) -> (compiled: Self)
        ensures
            compiled.tree() == *router,
    {
        Self::new(router)
    }
}

impl vstd::std_specs::convert::FromSpecImpl<Arc<Router>> for CompiledRouter {
    open spec fn obeys_from_spec() -> bool {
        false
    }

    open spec fn from_spec(router: Arc<Router>) -> CompiledRouter {
        arbitrary()
    }
}

} // verus!
