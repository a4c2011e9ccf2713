//! How results read in what is stated of them.

use vstd::prelude::*;

use crate::conduct::{mild, revocable, steady, tame};
use crate::detect::{course_of, Detection};
use crate::filter_plan::{verdict_of_all, Matching};
use crate::filters::{
    acts_as, answered, earlier, evaluated, said, verdict_of, world, Deferred, Filter, FilterBox,
    FilterInfo, InfoView, Progress, Reply, Verdict, World,
};
use crate::http::Request;
use crate::laws::compiled_detects;
use crate::oapi::{Metadata, SecurityRequirement};
use crate::opts::{And, Or};
use crate::others::{HostFilter, MethodFilter, PortFilter, SchemeFilter};
use crate::path_filter::PathFilter;
use crate::path_state::{PathState, PathView};
use crate::router::Router;
use crate::semantics::{detects, Course, Hit};
use crate::text::{converted, texts};

verus! {

/// A filter that answers yes passes, one that answers no fails, and one that stopped waits for
/// the test that it names.
pub proof fn answers_read_as_verdicts(answer: bool, progress: Progress, matching: Matching)
    ensures
        said(answer) is Pass <==> answer,
        said(answer) is Fail <==> !answer,
        match progress {
            Progress::Done(matched) => verdict_of(progress) == (if matched {
                Verdict::Pass
            } else {
                Verdict::Fail
            }),
            Progress::Await(pause) => verdict_of(progress) == Verdict::Waits(pause.key),
        },
        match matching {
            Matching::Done(matched) => verdict_of_all(matching) == (if matched {
                Verdict::Pass
            } else {
                Verdict::Fail
            }),
            Matching::Await(stop) => verdict_of_all(matching) == Verdict::Waits(stop.pause.key),
        },
{
}

/// A detection that is done has found the goal and the middleware that it gives, or nothing
/// where it gives none. One that stopped waits for the test that it names.
pub proof fn detections_read_as_courses<'a>(detection: Detection<'a>)
    ensures
        match detection {
            Detection::Done(Some(matched)) => course_of(detection) == Course::Found(
                Hit { hoops: matched.hoops@, goal: matched.goal },
            ),
            Detection::Done(None) => course_of(detection) == Course::Nothing,
            Detection::Await(pending) => course_of(detection) == Course::Waits(pending.awaited()),
        },
{
}

/// A world has the request and the path that it is made of, and what happened before.
pub proof fn world_is_what_it_is_made_of(req: Request, path: PathState, asked: Seq<Reply>)
    ensures
        world(req, path, asked).req == req,
        world(req, path, asked).path == path@,
        world(req, path, asked).asked == asked,
        path@.parts.len() == path.parts@.len(),
        path@.matched_parts.len() == path.matched_parts@.len(),
        forall|i: int|
            0 <= i < path.parts@.len() ==> #[trigger] path@.parts[i] == path.parts@[i]@,
        forall|i: int|
            0 <= i < path.matched_parts@.len() ==> #[trigger] path@.matched_parts[i]
                == path.matched_parts@[i]@,
        path@.cursor == path.cursor,
        path@.params == path.params@,
        path@.end_slash == path.end_slash,
        path@.once_ended == path.once_ended,
{
}

/// The answer of an outside test is added, with what it was asked on and what it left, to what
/// happened before.
pub proof fn answer_is_added_to_what_happened(
    w: World,
    req: Request,
    path: PathView,
    key: usize,
    answer: bool,
)
    ensures
        answered(w, req, path, key, answer) <==> w.asked.len() > 0 && w.asked == earlier(w).push(
            Reply { key, req, path, answer, left_req: w.req, left_path: w.path },
        ),
{
    if w.asked.len() > 0 {
        assert(w.asked =~= earlier(w).push(w.asked.last()));
    }
    if w.asked == earlier(w).push(
        Reply { key, req, path, answer, left_req: w.req, left_path: w.path },
    ) {
        assert(w.asked.last() == (Reply {
            key,
            req,
            path,
            answer,
            left_req: w.req,
            left_path: w.path,
        }));
    }
}

/// What detection by the compiled plan comes to is a result of the routing tree, where neither a
/// filter below a wide node nor an outside test exchanges the path.
pub proof fn compiled_result_is_a_tree_result(
    router: Router,
    w: World,
    course: Course,
    after: World,
)
    requires
        compiled_detects(router, w, course, after),
    ensures
        detects(router, true, w, course, after),
        steady(router) && tame(after.asked) ==> detects(router, false, w, course, after),
{
}

/// A boxed filter comes to what the filter comes to, leaves what it leaves, and says of itself
/// what the filter says.
pub proof fn boxed_filter_is_the_filter<F: Filter>(
    boxed: FilterBox,
    filter: F,
    w: World,
    verdict: Verdict,
    after: World,
)
    requires
        acts_as(boxed, filter),
    ensures
        evaluated(boxed, w, verdict, after) == evaluated(filter, w, verdict, after),
        boxed.outcome(w, verdict, after) == filter.outcome(w, verdict, after),
        boxed.sync() == filter.sync(),
        boxed.valid() == filter.valid(),
        boxed.segment() == filter.segment(),
        boxed.described() == filter.described(),
        boxed.named() == filter.named(),
{
    assert(boxed.outcome(w, verdict, after) == filter.outcome(w, verdict, after));
    assert(boxed.sync_outcome(w, verdict, after) == filter.sync_outcome(w, verdict, after));
}

/// A description has the kind, and the text or the value, that it shows.
pub proof fn description_shows_its_contents(info: FilterInfo)
    ensures
        match info {
            FilterInfo::Path(text) => info@ == InfoView::Path(text@),
            FilterInfo::Method(method) => info@ == InfoView::Method(method),
            FilterInfo::Scheme(scheme) => info@ == InfoView::Scheme(scheme),
            FilterInfo::Host(text) => info@ == InfoView::Host(text@),
            FilterInfo::Port(port) => info@ == InfoView::Port(port),
            FilterInfo::Other(text) => info@ == InfoView::Other(text@),
        },
{
}

/// A list of strings reads as the list of their texts, and a list that was converted has the
/// conversion of each item at its place.
pub proof fn lists_read_item_by_item<V: Into<String>>(
    items: Seq<V>,
    strings: Seq<String>,
    i: int,
)
    requires
        0 <= i < strings.len(),
    ensures
        texts(strings).len() == strings.len(),
        texts(strings)[i] == strings[i]@,
        converted(items, strings) ==> items.len() == strings.len() && call_ensures(
            V::into,
            (items[i],),
            strings[i],
        ),
{
}

/// Nothing is left out where a list is converted.
pub proof fn conversion_keeps_the_count<V: Into<String>>(items: Seq<V>, strings: Seq<String>)
    requires
        converted(items, strings),
    ensures
        strings.len() == items.len(),
{
}

/// A security requirement reads as its name and its scopes, and metadata as its tags and its
/// requirements, in order.
pub proof fn metadata_reads_as_it_is(security: SecurityRequirement, metadata: Metadata)
    ensures
        security@.name == security.name@,
        security@.scopes.len() == security.scopes@.len(),
        forall|i: int|
            0 <= i < security.scopes@.len() ==> #[trigger] security@.scopes[i]
                == security.scopes@[i]@,
        metadata@.tags == metadata.tags@,
        metadata@.securities.len() == metadata.securities@.len(),
        forall|i: int|
            0 <= i < metadata.securities@.len() ==> #[trigger] metadata@.securities[i]
                == metadata.securities@[i]@,
{
}

/// Outside tests exchanged no path where each left the parts that it was asked on, and what they
/// did can be taken back where that holds of each.
pub proof fn conduct_of_tests_is_told_one_by_one(asked: Seq<Reply>)
    ensures
        tame(asked) <==> forall|i: int|
            0 <= i < asked.len() ==> (#[trigger] asked[i]).left_path.parts == asked[i].path.parts,
        mild(asked) <==> forall|i: int|
            0 <= i < asked.len() ==> revocable((#[trigger] asked[i]).path, asked[i].left_path),
{
}

/// The filters of the library are named after their types.
pub proof fn filters_are_named_after_their_types<T: Filter, U: Filter>(
    method: MethodFilter,
    scheme: SchemeFilter,
    host: HostFilter,
    port: PortFilter,
    path: PathFilter,
    deferred: Deferred,
    and: And<T, U>,
    or: Or<T, U>,
)
    ensures
        method.named() == "MethodFilter"@,
        scheme.named() == "SchemeFilter"@,
        host.named() == "HostFilter"@,
        port.named() == "PortFilter"@,
        path.named() == "PathFilter"@,
        deferred.named() == "Deferred"@,
        and.named() == "And"@,
        or.named() == "Or"@,
{
}

} // verus!
