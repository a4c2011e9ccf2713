//! Composite filters.
//!
//! A composite evaluates its first filter, and then, where that did not settle the
//! answer, its second filter or its callback, in the world that the first left
//! behind. A part that never waits is evaluated through its synchronous entry point.

use vstd::prelude::*;

use crate::filters::{
    answered, call, call_total, call_verdict, earlier, evaluated, resumes, said, verdict_of, world,
    Filter, FilterBox, FilterExt, FilterInfo, InfoView, Pause, Progress, Reply, Side, Verdict,
    World,
};
use crate::http::Request;
use crate::path_state::PathState;

verus! {

/// Evaluates a filter, through its synchronous entry point where it has one.
fn evaluate<F: Filter>(filter: &F, req: &mut Request, path: &mut PathState) -> (progress: Progress)
    requires
        filter.valid(),
    ensures
        filter.sync() ==> progress is Done,
        forall|asked: Seq<Reply>|
            evaluated(
                *filter,
                #[trigger] world(*old(req), *old(path), asked),
                verdict_of(progress),
                world(*final(req), *final(path), asked),
            ),
        progress matches Progress::Await(pause) ==> filter.awaits(pause.at@, pause.key) && forall|
            answer: bool,
            w: World,
            verdict: Verdict,
            after: World,
        |
            answered(w, *final(req), final(path)@, pause.key, answer) && #[trigger] resumes(
                *filter,
                pause.at@,
                answer,
                w,
                verdict,
                after,
            ) ==> evaluated(*filter, world(*old(req), *old(path), earlier(w)), verdict, after),
{
    if filter.is_sync() {
        Progress::Done(filter.filter_sync(req, path))
    } else {
        filter.filter(req, path)
    }
}

/// Evaluates a filter that never waits.
fn evaluate_sync<F: Filter>(filter: &F, req: &mut Request, path: &mut PathState) -> (matched: bool)
    requires
        filter.valid(),
        filter.sync(),
    ensures
        forall|asked: Seq<Reply>|
            evaluated(
                *filter,
                #[trigger] world(*old(req), *old(path), asked),
                said(matched),
                world(*final(req), *final(path), asked),
            ),
{
    filter.filter_sync(req, path)
}

/// Goes on with a filter that waits.
fn go_on<F: Filter>(
    filter: &F,
    pause: Pause,
    answer: bool,
    req: &mut Request,
    path: &mut PathState,
) -> (progress: Progress)
    requires
        filter.valid(),
        filter.awaits(pause.at@, pause.key),
    ensures
        forall|asked: Seq<Reply>|
            resumes(
                *filter,
                pause.at@,
                answer,
                #[trigger] world(*old(req), *old(path), asked),
                verdict_of(progress),
                world(*final(req), *final(path), asked),
            ),
        progress matches Progress::Await(next) ==> filter.awaits(next.at@, next.key) && forall|
            answer2: bool,
            w: World,
            verdict: Verdict,
            after: World,
        |
            answered(w, *final(req), final(path)@, next.key, answer2) && #[trigger] resumes(
                *filter,
                next.at@,
                answer2,
                w,
                verdict,
                after,
            ) ==> resumes(
                *filter,
                pause.at@,
                answer,
                world(*old(req), *old(path), earlier(w)),
                verdict,
                after,
            ),
{
    filter.resume(pause, answer, req, path)
}

/// Matches where the first filter does, or else where the second does.
#[derive(Clone, Copy, Debug)]
pub struct Or<T, U> {
    pub first: T,
    pub second: U,
}

impl<T, U> Or<T, U> where T: Filter, U: Filter {
    /// What may follow once the first filter has come to `first` and left the
    /// world `mid`.
    pub open spec fn continued(
        &self,
        first: Verdict,
        mid: World,
        verdict: Verdict,
        after: World,
    ) -> bool {
        if first is Fail {
            evaluated(self.second, mid, verdict, after)
        } else {
            verdict == first && after == mid
        }
    }

    /// Goes on after the first filter.
    fn proceed(&self, first: Progress, req: &mut Request, path: &mut PathState) -> (progress:
        Progress)
        requires
            self.valid(),
            first matches Progress::Await(pause) ==> self.first.awaits(pause.at@, pause.key),
        ensures
            self.second.sync() && first is Done ==> progress is Done,
            forall|asked: Seq<Reply>|
                self.continued(
                    verdict_of(first),
                    #[trigger] world(*old(req), *old(path), asked),
                    verdict_of(progress),
                    world(*final(req), *final(path), asked),
                ),
            match (first, progress) {
                (_, Progress::Done(_)) => first is Done,
                (Progress::Done(b), Progress::Await(pause)) => {
                    &&& self.awaits(pause.at@, pause.key)
                    &&& pause.at@.last() == Side::Second
                    &&& forall|answer: bool, w: World, verdict: Verdict, after: World|
                        answered(w, *final(req), final(path)@, pause.key, answer)
                            && #[trigger] self.resumed(pause.at@, answer, w, verdict, after)
                            ==> self.continued(
                            said(b),
                            world(*old(req), *old(path), earlier(w)),
                            verdict,
                            after,
                        )
                },
                (Progress::Await(inner), Progress::Await(pause)) => {
                    &&& self.awaits(pause.at@, pause.key)
                    &&& pause.at@.last() == Side::First
                    &&& pause.at@.drop_last() == inner.at@
                    &&& pause.key == inner.key
                    &&& final(path)@ == old(path)@
                    &&& *final(req) == *old(req)
                },
            },
    {
        match first {
            Progress::Done(true) => Progress::Done(true),
            Progress::Done(false) => {
                match evaluate(&self.second, req, path) {
                    Progress::Done(matched) => Progress::Done(matched),
                    Progress::Await(mut pause) => {
                        let ghost inner = pause.at@;
                        pause.at.push(Side::Second);
                        assert(pause.at@.drop_last() =~= inner);
                        Progress::Await(pause)
                    },
                }
            },
            Progress::Await(mut pause) => {
                let ghost inner = pause.at@;
                pause.at.push(Side::First);
                assert(pause.at@.drop_last() =~= inner);
                Progress::Await(pause)
            },
        }
    }
}

impl<T, U> Filter for Or<T, U> where T: Filter, U: Filter {
    open spec fn valid(&self) -> bool {
        self.first.valid() && self.second.valid()
    }

    open spec fn outcome(&self, w: World, verdict: Verdict, after: World) -> bool {
        exists|first: Verdict, mid: World| #[trigger]
            evaluated(self.first, w, first, mid) && self.continued(first, mid, verdict, after)
    }

    open spec fn awaits(&self, at: Seq<Side>, key: usize) -> bool {
        at.len() > 0 && match at.last() {
            Side::First => self.first.awaits(at.drop_last(), key),
            Side::Second => self.second.awaits(at.drop_last(), key),
        }
    }

    open spec fn resumed(
        &self,
        at: Seq<Side>,
        answer: bool,
        w: World,
        verdict: Verdict,
        after: World,
    ) -> bool {
        at.len() > 0 && match at.last() {
            Side::First => exists|first: Verdict, mid: World| #[trigger]
                resumes(self.first, at.drop_last(), answer, w, first, mid) && self.continued(
                    first,
                    mid,
                    verdict,
                    after,
                ),
            Side::Second => resumes(self.second, at.drop_last(), answer, w, verdict, after),
        }
    }

    open spec fn segment(&self) -> Option<Seq<char>> {
        None
    }

    open spec fn sync(&self) -> bool {
        self.first.sync() && self.second.sync()
    }

    open spec fn named(&self) -> Seq<char> {
        "Or"@
    }

    open spec fn described(&self) -> InfoView {
        InfoView::Other(self.named())
    }

    fn kind_name(&self) -> (name: &'static str) {
        "Or"
    }

    fn info(&self) -> (info: FilterInfo) {
        FilterInfo::Other(self.kind_name())
    }

    fn static_path_segment(&self) -> (segment: Option<&str>) {
        None
    }

    fn is_sync(&self) -> (r: bool) {
        self.first.is_sync() && self.second.is_sync()
    }

    fn filter_sync(&self, req: &mut Request, path: &mut PathState) -> (matched: bool) {
        if evaluate_sync(&self.first, req, path) {
            true
        } else {
            evaluate_sync(&self.second, req, path)
        }
    }

    fn filter(&self, req: &mut Request, path: &mut PathState) -> (progress: Progress) {
        let first = evaluate(&self.first, req, path);
        self.proceed(first, req, path)
    }

    fn resume(
        &self,
        mut pause: Pause,
        answer: bool,
        req: &mut Request,
        path: &mut PathState,
    ) -> (progress: Progress) {
        match pause.at.pop() {
            Some(Side::First) => {
                let first = go_on(&self.first, pause, answer, req, path);
                self.proceed(first, req, path)
            },
            Some(Side::Second) => {
                match go_on(&self.second, pause, answer, req, path) {
                    Progress::Done(matched) => Progress::Done(matched),
                    Progress::Await(mut next) => {
                        let ghost inner = next.at@;
                        next.at.push(Side::Second);
                        assert(next.at@.drop_last() =~= inner);
                        Progress::Await(next)
                    },
                }
            },
            None => Progress::Done(answer),
        }
    }
}

/// Matches where the filter does, or else where the callback says so.
#[derive(Clone, Copy)]
pub struct OrElse<T, F> {
    pub filter: T,
    pub callback: F,
}

impl<T, F> OrElse<T, F> {
    /// How the filter is shown where filters are listed.
    pub fn label(&self) -> (text: &'static str)
        ensures
            text@ == "opt:or_else"@,
    {
        "opt:or_else"
    }
}

impl<T, F> OrElse<T, F> where
    T: Filter,
    F: Fn(Request, PathState) -> (bool, Request, PathState) + Send + Sync + 'static,
 {
    /// What may follow once the filter has come to `first` and left the world `mid`.
    pub open spec fn continued(
        &self,
        first: Verdict,
        mid: World,
        verdict: Verdict,
        after: World,
    ) -> bool {
        if first is Fail {
            call_verdict(self.callback, mid, verdict, after)
        } else {
            verdict == first && after == mid
        }
    }

    /// Goes on after the filter.
    fn proceed(&self, first: Progress, req: &mut Request, path: &mut PathState) -> (progress:
        Progress)
        requires
            self.valid(),
        ensures
            forall|asked: Seq<Reply>|
                self.continued(
                    verdict_of(first),
                    #[trigger] world(*old(req), *old(path), asked),
                    verdict_of(progress),
                    world(*final(req), *final(path), asked),
                ),
            match first {
                Progress::Done(_) => progress is Done,
                Progress::Await(pause) => {
                    &&& progress == first
                    &&& final(path)@ == old(path)@
                    &&& *final(req) == *old(req)
                },
            },
    {
        match first {
            Progress::Done(true) => Progress::Done(true),
            Progress::Done(false) => Progress::Done(call(&self.callback, req, path)),
            Progress::Await(pause) => Progress::Await(pause),
        }
    }
}

impl<T, F> Filter for OrElse<T, F> where
    T: Filter,
    F: Fn(Request, PathState) -> (bool, Request, PathState) + Send + Sync + 'static,
 {
    open spec fn valid(&self) -> bool {
        self.filter.valid() && call_total(self.callback)
    }

    open spec fn outcome(&self, w: World, verdict: Verdict, after: World) -> bool {
        exists|first: Verdict, mid: World| #[trigger]
            evaluated(self.filter, w, first, mid) && self.continued(first, mid, verdict, after)
    }

    open spec fn sync_outcome(&self, w: World, verdict: Verdict, after: World) -> bool {
        self.outcome(w, verdict, after)
    }

    open spec fn awaits(&self, at: Seq<Side>, key: usize) -> bool {
        self.filter.awaits(at, key)
    }

    open spec fn resumed(
        &self,
        at: Seq<Side>,
        answer: bool,
        w: World,
        verdict: Verdict,
        after: World,
    ) -> bool {
        exists|first: Verdict, mid: World| #[trigger]
            resumes(self.filter, at, answer, w, first, mid) && self.continued(
                first,
                mid,
                verdict,
                after,
            )
    }

    open spec fn segment(&self) -> Option<Seq<char>> {
        None
    }

    open spec fn sync(&self) -> bool {
        self.filter.sync()
    }

    open spec fn named(&self) -> Seq<char> {
        "OrElse"@
    }

    open spec fn described(&self) -> InfoView {
        InfoView::Other(self.named())
    }

    fn kind_name(&self) -> (name: &'static str) {
        "OrElse"
    }

    fn info(&self) -> (info: FilterInfo) {
        FilterInfo::Other(self.kind_name())
    }

    fn static_path_segment(&self) -> (segment: Option<&str>) {
        None
    }

    fn is_sync(&self) -> (r: bool) {
        self.filter.is_sync()
    }

    fn filter_sync(&self, req: &mut Request, path: &mut PathState) -> (matched: bool) {
        if evaluate_sync(&self.filter, req, path) {
            true
        } else {
            call(&self.callback, req, path)
        }
    }

    fn filter(&self, req: &mut Request, path: &mut PathState) -> (progress: Progress) {
        let first = evaluate(&self.filter, req, path);
        self.proceed(first, req, path)
    }

    fn resume(
        &self,
        pause: Pause,
        answer: bool,
        req: &mut Request,
        path: &mut PathState,
    ) -> (progress: Progress) {
        let first = go_on(&self.filter, pause, answer, req, path);
        self.proceed(first, req, path)
    }
}

/// Matches where both filters do, the first one first.
#[derive(Clone, Copy, Debug)]
pub struct And<T, U> {
    pub first: T,
    pub second: U,
}

impl<T, U> And<T, U> where T: Filter, U: Filter {
    /// What may follow once the first filter has come to `first` and left the
    /// world `mid`.
    pub open spec fn continued(
        &self,
        first: Verdict,
        mid: World,
        verdict: Verdict,
        after: World,
    ) -> bool {
        if first is Pass {
            evaluated(self.second, mid, verdict, after)
        } else {
            verdict == first && after == mid
        }
    }

    /// Goes on after the first filter.
    fn proceed(&self, first: Progress, req: &mut Request, path: &mut PathState) -> (progress:
        Progress)
        requires
            self.valid(),
            first matches Progress::Await(pause) ==> self.first.awaits(pause.at@, pause.key),
        ensures
            self.second.sync() && first is Done ==> progress is Done,
            forall|asked: Seq<Reply>|
                self.continued(
                    verdict_of(first),
                    #[trigger] world(*old(req), *old(path), asked),
                    verdict_of(progress),
                    world(*final(req), *final(path), asked),
                ),
            match (first, progress) {
                (_, Progress::Done(_)) => first is Done,
                (Progress::Done(b), Progress::Await(pause)) => {
                    &&& self.awaits(pause.at@, pause.key)
                    &&& pause.at@.last() == Side::Second
                    &&& forall|answer: bool, w: World, verdict: Verdict, after: World|
                        answered(w, *final(req), final(path)@, pause.key, answer)
                            && #[trigger] self.resumed(pause.at@, answer, w, verdict, after)
                            ==> self.continued(
                            said(b),
                            world(*old(req), *old(path), earlier(w)),
                            verdict,
                            after,
                        )
                },
                (Progress::Await(inner), Progress::Await(pause)) => {
                    &&& self.awaits(pause.at@, pause.key)
                    &&& pause.at@.last() == Side::First
                    &&& pause.at@.drop_last() == inner.at@
                    &&& pause.key == inner.key
                    &&& final(path)@ == old(path)@
                    &&& *final(req) == *old(req)
                },
            },
    {
        match first {
            Progress::Done(false) => Progress::Done(false),
            Progress::Done(true) => {
                match evaluate(&self.second, req, path) {
                    Progress::Done(matched) => Progress::Done(matched),
                    Progress::Await(mut pause) => {
                        let ghost inner = pause.at@;
                        pause.at.push(Side::Second);
                        assert(pause.at@.drop_last() =~= inner);
                        Progress::Await(pause)
                    },
                }
            },
            Progress::Await(mut pause) => {
                let ghost inner = pause.at@;
                pause.at.push(Side::First);
                assert(pause.at@.drop_last() =~= inner);
                Progress::Await(pause)
            },
        }
    }
}

impl<T, U> Filter for And<T, U> where T: Filter, U: Filter {
    open spec fn valid(&self) -> bool {
        self.first.valid() && self.second.valid()
    }

    open spec fn outcome(&self, w: World, verdict: Verdict, after: World) -> bool {
        exists|first: Verdict, mid: World| #[trigger]
            evaluated(self.first, w, first, mid) && self.continued(first, mid, verdict, after)
    }

    open spec fn awaits(&self, at: Seq<Side>, key: usize) -> bool {
        at.len() > 0 && match at.last() {
            Side::First => self.first.awaits(at.drop_last(), key),
            Side::Second => self.second.awaits(at.drop_last(), key),
        }
    }

    open spec fn resumed(
        &self,
        at: Seq<Side>,
        answer: bool,
        w: World,
        verdict: Verdict,
        after: World,
    ) -> bool {
        at.len() > 0 && match at.last() {
            Side::First => exists|first: Verdict, mid: World| #[trigger]
                resumes(self.first, at.drop_last(), answer, w, first, mid) && self.continued(
                    first,
                    mid,
                    verdict,
                    after,
                ),
            Side::Second => resumes(self.second, at.drop_last(), answer, w, verdict, after),
        }
    }

    open spec fn segment(&self) -> Option<Seq<char>> {
        self.first.segment()
    }

    open spec fn sync(&self) -> bool {
        self.first.sync() && self.second.sync()
    }

    open spec fn named(&self) -> Seq<char> {
        "And"@
    }

    open spec fn described(&self) -> InfoView {
        InfoView::Other(self.named())
    }

    fn kind_name(&self) -> (name: &'static str) {
        "And"
    }

    fn info(&self) -> (info: FilterInfo) {
        FilterInfo::Other(self.kind_name())
    }

    fn static_path_segment(&self) -> (segment: Option<&str>) {
        let segment = self.first.static_path_segment();
        proof {
            if self.segment() is Some {
                assert forall|w: World, verdict: Verdict, after: World|
                    w.path.pick() != self.segment() implies (#[trigger] self.outcome(
                    w,
                    verdict,
                    after,
                ) <==> (verdict is Fail && after == w)) by {
                    assert(evaluated(self.first, w, Verdict::Fail, w));
                }
            }
        }
        segment
    }

    fn is_sync(&self) -> (r: bool) {
        self.first.is_sync() && self.second.is_sync()
    }

    fn filter_sync(&self, req: &mut Request, path: &mut PathState) -> (matched: bool) {
        if !evaluate_sync(&self.first, req, path) {
            false
        } else {
            evaluate_sync(&self.second, req, path)
        }
    }

    fn filter(&self, req: &mut Request, path: &mut PathState) -> (progress: Progress) {
        let first = evaluate(&self.first, req, path);
        self.proceed(first, req, path)
    }

    fn resume(
        &self,
        mut pause: Pause,
        answer: bool,
        req: &mut Request,
        path: &mut PathState,
    ) -> (progress: Progress) {
        match pause.at.pop() {
            Some(Side::First) => {
                let first = go_on(&self.first, pause, answer, req, path);
                self.proceed(first, req, path)
            },
            Some(Side::Second) => {
                match go_on(&self.second, pause, answer, req, path) {
                    Progress::Done(matched) => Progress::Done(matched),
                    Progress::Await(mut next) => {
                        let ghost inner = next.at@;
                        next.at.push(Side::Second);
                        assert(next.at@.drop_last() =~= inner);
                        Progress::Await(next)
                    },
                }
            },
            None => Progress::Done(answer),
        }
    }
}

/// Matches where the filter does and the callback then says so.
#[derive(Clone, Copy)]
pub struct AndThen<T, F> {
    pub filter: T,
    pub callback: F,
}

impl<T, F> AndThen<T, F> {
    /// How the filter is shown where filters are listed.
    pub fn label(&self) -> (text: &'static str)
        ensures
            text@ == "opt:and_then"@,
    {
        "opt:and_then"
    }
}

impl<T, F> AndThen<T, F> where
    T: Filter,
    F: Fn(Request, PathState) -> (bool, Request, PathState) + Send + Sync + 'static,
 {
    /// What may follow once the filter has come to `first` and left the world `mid`.
    pub open spec fn continued(
        &self,
        first: Verdict,
        mid: World,
        verdict: Verdict,
        after: World,
    ) -> bool {
        if first is Pass {
            call_verdict(self.callback, mid, verdict, after)
        } else {
            verdict == first && after == mid
        }
    }

    /// Goes on after the filter.
    fn proceed(&self, first: Progress, req: &mut Request, path: &mut PathState) -> (progress:
        Progress)
        requires
            self.valid(),
        ensures
            forall|asked: Seq<Reply>|
                self.continued(
                    verdict_of(first),
                    #[trigger] world(*old(req), *old(path), asked),
                    verdict_of(progress),
                    world(*final(req), *final(path), asked),
                ),
            match first {
                Progress::Done(_) => progress is Done,
                Progress::Await(pause) => {
                    &&& progress == first
                    &&& final(path)@ == old(path)@
                    &&& *final(req) == *old(req)
                },
            },
    {
        match first {
            Progress::Done(false) => Progress::Done(false),
            Progress::Done(true) => Progress::Done(call(&self.callback, req, path)),
            Progress::Await(pause) => Progress::Await(pause),
        }
    }
}

impl<T, F> Filter for AndThen<T, F> where
    T: Filter,
    F: Fn(Request, PathState) -> (bool, Request, PathState) + Send + Sync + 'static,
 {
    open spec fn valid(&self) -> bool {
        self.filter.valid() && call_total(self.callback)
    }

    open spec fn outcome(&self, w: World, verdict: Verdict, after: World) -> bool {
        exists|first: Verdict, mid: World| #[trigger]
            evaluated(self.filter, w, first, mid) && self.continued(first, mid, verdict, after)
    }

    open spec fn sync_outcome(&self, w: World, verdict: Verdict, after: World) -> bool {
        self.outcome(w, verdict, after)
    }

    open spec fn awaits(&self, at: Seq<Side>, key: usize) -> bool {
        self.filter.awaits(at, key)
    }

    open spec fn resumed(
        &self,
        at: Seq<Side>,
        answer: bool,
        w: World,
        verdict: Verdict,
        after: World,
    ) -> bool {
        exists|first: Verdict, mid: World| #[trigger]
            resumes(self.filter, at, answer, w, first, mid) && self.continued(
                first,
                mid,
                verdict,
                after,
            )
    }

    open spec fn segment(&self) -> Option<Seq<char>> {
        self.filter.segment()
    }

    open spec fn sync(&self) -> bool {
        self.filter.sync()
    }

    open spec fn named(&self) -> Seq<char> {
        "AndThen"@
    }

    open spec fn described(&self) -> InfoView {
        InfoView::Other(self.named())
    }

    fn kind_name(&self) -> (name: &'static str) {
        "AndThen"
    }

    fn info(&self) -> (info: FilterInfo) {
        FilterInfo::Other(self.kind_name())
    }

    fn static_path_segment(&self) -> (segment: Option<&str>) {
        let segment = self.filter.static_path_segment();
        proof {
            if self.segment() is Some {
                assert forall|w: World, verdict: Verdict, after: World|
                    w.path.pick() != self.segment() implies (#[trigger] self.outcome(
                    w,
                    verdict,
                    after,
                ) <==> (verdict is Fail && after == w)) by {
                    assert(evaluated(self.filter, w, Verdict::Fail, w));
                }
            }
        }
        segment
    }

    fn is_sync(&self) -> (r: bool) {
        self.filter.is_sync()
    }

    fn filter_sync(&self, req: &mut Request, path: &mut PathState) -> (matched: bool) {
        if !evaluate_sync(&self.filter, req, path) {
            false
        } else {
            call(&self.callback, req, path)
        }
    }

    fn filter(&self, req: &mut Request, path: &mut PathState) -> (progress: Progress) {
        let first = evaluate(&self.filter, req, path);
        self.proceed(first, req, path)
    }

    fn resume(
        &self,
        pause: Pause,
        answer: bool,
        req: &mut Request,
        path: &mut PathState,
    ) -> (progress: Progress) {
        let first = go_on(&self.filter, pause, answer, req, path);
        self.proceed(first, req, path)
    }
}

impl<T, U> FilterExt for Or<T, U> where T: Filter, U: Filter {
    fn boxed(self) -> (boxed: FilterBox) {
        FilterBox(Box::new(self))
    }
}

impl<T, U> FilterExt for And<T, U> where T: Filter, U: Filter {
    fn boxed(self) -> (boxed: FilterBox) {
        FilterBox(Box::new(self))
    }
}

impl<T, F> FilterExt for OrElse<T, F> where
    T: Filter,
    F: Fn(Request, PathState) -> (bool, Request, PathState) + Send + Sync + 'static,
 {
    fn boxed(self) -> (boxed: FilterBox) {
        FilterBox(Box::new(self))
    }
}

impl<T, F> FilterExt for AndThen<T, F> where
    T: Filter,
    F: Fn(Request, PathState) -> (bool, Request, PathState) + Send + Sync + 'static,
 {
    fn boxed(self) -> (boxed: FilterBox) {
        FilterBox(Box::new(self))
    }
}

} // verus!
