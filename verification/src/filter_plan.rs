//! How the filters of a node are evaluated.

use vstd::prelude::*;

use crate::filters::{
    answered, earlier, evaluated, resumes, said, verdict_of, world, Filter, FilterBox, Pause,
    Progress, Reply, Verdict, World,
};
use crate::http::Request;
use crate::path_state::PathState;
use crate::semantics::{filters_outcome, filters_resumed};

verus! {

/// Whether bit `i` of a word is set.
pub open spec fn bit(mask: u64, i: u64) -> bool {
    mask & (1u64 << i) != 0
}

/// The filters of a node, stopped because the filter at `index` waits.
#[derive(Debug)]
pub struct FiltersPause {
    pub index: usize,
    pub pause: Pause,
}

/// How far the evaluation of the filters of a node came.
#[derive(Debug)]
pub enum Matching {
    /// The filters have answered.
    Done(bool),
    /// One of the filters waits for an answer from outside.
    Await(FiltersPause),
}

/// The verdict that the filters of a node have come to.
pub open spec fn verdict_of_all(matching: Matching) -> Verdict {
    match matching {
        Matching::Done(matched) => said(matched),
        Matching::Await(stop) => Verdict::Waits(stop.pause.key),
    }
}

impl FiltersPause {
    /// Whether the filters can be stopped like this.
    pub open spec fn fits(self, filters: Seq<FilterBox>) -> bool {
        self.index < filters.len() && filters[self.index as int].awaits(
            self.pause.at@,
            self.pause.key,
        )
    }

    /// Whether the stopped filters may come to `verdict` and leave `after` once the
    /// outside test has said `answer` and left `w`.
    pub open spec fn resumed(
        self,
        filters: Seq<FilterBox>,
        answer: bool,
        w: World,
        verdict: Verdict,
        after: World,
    ) -> bool {
        filters_resumed(filters, self.index as int, self.pause.at@, answer, w, verdict, after)
    }
}

/// Which of the filters of a node never wait.
pub struct FilterExecPlan {
    /// Sync classification for the first 64 filters. Router nodes almost
    /// always contain only one or two filters, so a single word avoids a
    /// per-node mode allocation while retaining exact filter order.
    pub sync_mask: u64,
}

impl FilterExecPlan {
    /// Whether the plan classifies the given filters: a bit is set for each of the first
    /// 64 that never waits, and no other.
    pub open spec fn suits(self, filters: Seq<FilterBox>) -> bool {
        &&& forall|i: int|
            0 <= i < filters.len() && i < 64 ==> bit(self.sync_mask, i as u64) == (
            #[trigger] filters[i]).sync()
        &&& forall|i: u64| filters.len() <= i < 64 ==> !#[trigger] bit(self.sync_mask, i)
    }

    /// Classifies the filters of a node.
    pub fn compile(filters: &Vec<FilterBox>) -> (plan: Self)
        ensures
            plan.suits(filters@),
    {
        let mut sync_mask: u64 = 0;
        let mut index: usize = 0;
        proof {
            assert forall|i: u64| i < 64 implies !#[trigger] bit(0, i) by {
                assert(0u64 & (1u64 << i) == 0) by (bit_vector);
            }
        }
        while index < filters.len() && index < 64
            invariant
                index <= filters.len(),
                index <= 64,
                forall|i: int|
                    0 <= i < index ==> bit(sync_mask, i as u64) == (#[trigger] filters@[i]).sync(),
                forall|i: u64| index <= i < 64 ==> !#[trigger] bit(sync_mask, i),
            decreases filters.len() - index,
        {
            if filters[index].is_sync() {
                let position = index as u64;
                let ghost before = sync_mask;
                sync_mask = sync_mask | (1u64 << position);
                proof {
                    assert forall|i: u64| i < 64 implies #[trigger] bit(sync_mask, i) == (bit(
                        before,
                        i,
                    ) || i == position) by {
                        assert(position < 64 && i < 64 ==> ((before | (1u64 << position)) & (1u64
                            << i) != 0) == ((before & (1u64 << i) != 0) || i == position))
                            by (bit_vector);
                    }
                }
            }
            index = index + 1;
        }
        FilterExecPlan { sync_mask }
    }

    /// Evaluates the filters from `from` on.
    fn run(
        &self,
        filters: &Vec<FilterBox>,
        from: usize,
        req: &mut Request,
        path_state: &mut PathState,
    ) -> (matching: Matching)
        requires
            self.suits(filters@),
            forall|i: int| 0 <= i < filters@.len() ==> (#[trigger] filters@[i]).valid(),
            from <= filters@.len(),
        ensures
            (forall|i: int| from <= i < filters@.len() ==> (#[trigger] filters@[i]).sync())
                ==> matching is Done,
            forall|asked: Seq<Reply>|
                filters_outcome(
                    filters@,
                    from as int,
                    #[trigger] world(*old(req), *old(path_state), asked),
                    verdict_of_all(matching),
                    world(*final(req), *final(path_state), asked),
                ),
            matching matches Matching::Await(stop) ==> stop.fits(filters@) && forall|
                answer: bool,
                w: World,
                verdict: Verdict,
                after: World,
            |
                answered(w, *final(req), final(path_state)@, stop.pause.key, answer)
                    && #[trigger] stop.resumed(filters@, answer, w, verdict, after)
                    ==> filters_outcome(
                    filters@,
                    from as int,
                    world(*old(req), *old(path_state), earlier(w)),
                    verdict,
                    after,
                ),
    {
        let mut index: usize = from;
        while index < filters.len()
            invariant
                from <= index <= filters@.len(),
                self.suits(filters@),
                forall|i: int| 0 <= i < filters@.len() ==> (#[trigger] filters@[i]).valid(),
                forall|asked: Seq<Reply>, verdict: Verdict, after: World| #[trigger]
                    filters_outcome(
                        filters@,
                        index as int,
                        world(*req, *path_state, asked),
                        verdict,
                        after,
                    ) ==> filters_outcome(
                        filters@,
                        from as int,
                        world(*old(req), *old(path_state), asked),
                        verdict,
                        after,
                    ),
            decreases filters.len() - index,
        {
            let ghost req_here = *req;
            let ghost path_here = *path_state;
            let filter = &filters[index];
            let is_sync = if index < 64 {
                let position = index as u64;
                self.sync_mask & (1u64 << position) != 0
            } else {
                // Avoid allocating overflow mode words for the pathological
                // case of a router node with more than 64 filters.
                filter.is_sync()
            };
            let progress = if is_sync {
                Progress::Done(filter.filter_sync(req, path_state))
            } else {
                filter.filter(req, path_state)
            };
            let ghost came_to = verdict_of(progress);
            assert forall|asked: Seq<Reply>| evaluated(
                filters@[index as int],
                #[trigger] world(req_here, path_here, asked),
                came_to,
                world(*req, *path_state, asked),
            ) by {}
            if let Progress::Done(true) = progress {
                assert forall|asked: Seq<Reply>, v: Verdict, after: World| #[trigger]
                    filters_outcome(
                        filters@,
                        index + 1,
                        world(*req, *path_state, asked),
                        v,
                        after,
                    ) implies filters_outcome(
                    filters@,
                    from as int,
                    world(*old(req), *old(path_state), asked),
                    v,
                    after,
                ) by {
                    let at = world(req_here, path_here, asked);
                    assert(evaluated(
                        filters@[index as int],
                        at,
                        came_to,
                        world(*req, *path_state, asked),
                    ));
                    assert(filters_outcome(filters@, index as int, at, v, after));
                }
                index = index + 1;
                continue;
            }
            assert forall|asked: Seq<Reply>| filters_outcome(
                filters@,
                from as int,
                #[trigger] world(*old(req), *old(path_state), asked),
                came_to,
                world(*req, *path_state, asked),
            ) by {
                let at = world(req_here, path_here, asked);
                assert(evaluated(
                    filters@[index as int],
                    at,
                    came_to,
                    world(*req, *path_state, asked),
                ));
                assert(filters_outcome(
                    filters@,
                    index as int,
                    at,
                    came_to,
                    world(*req, *path_state, asked),
                ));
            }
            match progress {
                Progress::Done(_) => return Matching::Done(false),
                Progress::Await(pause) => {
                    let stop = FiltersPause { index, pause };
                    assert forall|answer: bool, w: World, verdict: Verdict, after: World|
                        answered(w, *req, path_state@, stop.pause.key, answer)
                            && #[trigger] stop.resumed(
                            filters@,
                            answer,
                            w,
                            verdict,
                            after,
                        ) implies filters_outcome(
                        filters@,
                        from as int,
                        world(*old(req), *old(path_state), earlier(w)),
                        verdict,
                        after,
                    ) by {
                        let (v, mid) = choose|v: Verdict, mid: World| #[trigger]
                            resumes(filters@[index as int], stop.pause.at@, answer, w, v, mid) && (
                            if v is Pass {
                                filters_outcome(filters@, index + 1, mid, verdict, after)
                            } else {
                                verdict == v && after == mid
                            });
                        let at = world(req_here, path_here, earlier(w));
                        assert(evaluated(filters@[index as int], at, v, mid));
                        assert(filters_outcome(filters@, index as int, at, verdict, after));
                    }
                    return Matching::Await(stop);
                },
            }
        }
        assert forall|asked: Seq<Reply>| filters_outcome(
            filters@,
            from as int,
            #[trigger] world(*old(req), *old(path_state), asked),
            Verdict::Pass,
            world(*req, *path_state, asked),
        ) by {
            assert(filters_outcome(
                filters@,
                index as int,
                world(*req, *path_state, asked),
                Verdict::Pass,
                world(*req, *path_state, asked),
            ));
        }
        Matching::Done(true)
    }

    /// Evaluates the filters of a node in order, up to the first that fails or waits.
    /// Where one waits, its outside test is to be asked on the request and the path as
    /// they are left.
    pub fn matches(
        &self,
        filters: &Vec<FilterBox>,
        req: &mut Request,
        path_state: &mut PathState,
    ) -> (matching: Matching)
        requires
            self.suits(filters@),
            forall|i: int| 0 <= i < filters@.len() ==> (#[trigger] filters@[i]).valid(),
        ensures
            (forall|i: int| 0 <= i < filters@.len() ==> (#[trigger] filters@[i]).sync())
                ==> matching is Done,
            forall|asked: Seq<Reply>|
                filters_outcome(
                    filters@,
                    0,
                    #[trigger] world(*old(req), *old(path_state), asked),
                    verdict_of_all(matching),
                    world(*final(req), *final(path_state), asked),
                ),
            matching matches Matching::Await(stop) ==> stop.fits(filters@) && forall|
                answer: bool,
                w: World,
                verdict: Verdict,
                after: World,
            |
                answered(w, *final(req), final(path_state)@, stop.pause.key, answer)
                    && #[trigger] stop.resumed(filters@, answer, w, verdict, after)
                    ==> filters_outcome(
                    filters@,
                    0,
                    world(*old(req), *old(path_state), earlier(w)),
                    verdict,
                    after,
                ),
    {
        self.run(filters, 0, req, path_state)
    }

    /// Goes on with the filters of a node, now that the outside test has answered.
    pub fn resume(
        &self,
        filters: &Vec<FilterBox>,
        stop: FiltersPause,
        answer: bool,
        req: &mut Request,
        path_state: &mut PathState,
    ) -> (matching: Matching)
        requires
            self.suits(filters@),
            forall|i: int| 0 <= i < filters@.len() ==> (#[trigger] filters@[i]).valid(),
            stop.fits(filters@),
        ensures
            forall|asked: Seq<Reply>|
                stop.resumed(
                    filters@,
                    answer,
                    #[trigger] world(*old(req), *old(path_state), asked),
                    verdict_of_all(matching),
                    world(*final(req), *final(path_state), asked),
                ),
            matching matches Matching::Await(next) ==> next.fits(filters@) && forall|
                answer2: bool,
                w: World,
                verdict: Verdict,
                after: World,
            |
                answered(w, *final(req), final(path_state)@, next.pause.key, answer2)
                    && #[trigger] next.resumed(filters@, answer2, w, verdict, after)
                    ==> stop.resumed(
                    filters@,
                    answer,
                    world(*old(req), *old(path_state), earlier(w)),
                    verdict,
                    after,
                ),
    {
        let ghost at = stop.pause.at@;
        let index = stop.index;
        assert(index < filters.len());
        let progress = filters[index].resume(stop.pause, answer, req, path_state);
        let ghost came_to = verdict_of(progress);
        assert forall|asked: Seq<Reply>| resumes(
            filters@[index as int],
            at,
            answer,
            #[trigger] world(*old(req), *old(path_state), asked),
            came_to,
            world(*req, *path_state, asked),
        ) by {}
        match progress {
            Progress::Done(true) => self.run(filters, index + 1, req, path_state),
            Progress::Done(false) => Matching::Done(false),
            Progress::Await(pause) => {
                let next = FiltersPause { index, pause };
                assert forall|answer2: bool, w: World, verdict: Verdict, after: World|
                    answered(w, *req, path_state@, next.pause.key, answer2)
                        && #[trigger] next.resumed(
                        filters@,
                        answer2,
                        w,
                        verdict,
                        after,
                    ) implies filters_resumed(
                    filters@,
                    index as int,
                    at,
                    answer,
                    world(*old(req), *old(path_state), earlier(w)),
                    verdict,
                    after,
                ) by {
                    let (v, mid) = choose|v: Verdict, mid: World| #[trigger]
                        resumes(filters@[index as int], next.pause.at@, answer2, w, v, mid) && (
                        if v is Pass {
                            filters_outcome(filters@, index + 1, mid, verdict, after)
                        } else {
                            verdict == v && after == mid
                        });
                    assert(resumes(
                        filters@[index as int],
                        at,
                        answer,
                        world(*old(req), *old(path_state), earlier(w)),
                        v,
                        mid,
                    ));
                }
                Matching::Await(next)
            },
        }
    }
}

} // verus!
