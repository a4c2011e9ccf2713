//! What filters come to, told by their parts, by the request, and by the functions that
//! they call.

use vstd::prelude::*;

use crate::filters::{
    evaluated, world, Deferred, Filter, FilterBox, FnFilter, InfoView, Reply, Verdict, World,
};
use crate::http::{Method, Request, Scheme};
use crate::opts::{And, AndThen, Or, OrElse};
use crate::others::{HostFilter, MethodFilter, PortFilter, SchemeFilter};
use crate::path_state::PathState;
use crate::semantics::{filters_outcome, lemma_first_filter};

verus! {

/// An `And` asks its second filter where, and as, the first has let the request pass, and
/// then comes to what the second comes to. Where the first fails or waits, so does it.
pub proof fn and_asks_both<T: Filter, U: Filter>(
    filter: And<T, U>,
    w: World,
    verdict: Verdict,
    after: World,
)
    ensures
        evaluated(filter, w, verdict, after) <==> (verdict !is Pass && evaluated(
            filter.first,
            w,
            verdict,
            after,
        )) || exists|mid: World| #[trigger]
            evaluated(filter.first, w, Verdict::Pass, mid) && evaluated(
                filter.second,
                mid,
                verdict,
                after,
            ),
        filter.sync() <==> filter.first.sync() && filter.second.sync(),
        filter.segment() == filter.first.segment(),
        filter.valid() <==> filter.first.valid() && filter.second.valid(),
{
    if evaluated(filter, w, verdict, after) {
        let (first, mid) = choose|first: Verdict, mid: World| #[trigger]
            evaluated(filter.first, w, first, mid) && filter.continued(first, mid, verdict, after);
        assert(evaluated(filter.first, w, first, mid));
    }
    if verdict !is Pass && evaluated(filter.first, w, verdict, after) {
        assert(filter.continued(verdict, after, verdict, after));
    }
    if exists|mid: World| #[trigger]
        evaluated(filter.first, w, Verdict::Pass, mid) && evaluated(
            filter.second,
            mid,
            verdict,
            after,
        ) {
        let mid = choose|mid: World| #[trigger]
            evaluated(filter.first, w, Verdict::Pass, mid) && evaluated(
                filter.second,
                mid,
                verdict,
                after,
            );
        assert(filter.continued(Verdict::Pass, mid, verdict, after));
    }
}

/// An `Or` asks its second filter where the first fails, in the world that the first has
/// left, and then comes to what the second comes to. Where the first passes or waits, so
/// does it.
pub proof fn or_asks_the_second_where_the_first_fails<T: Filter, U: Filter>(
    filter: Or<T, U>,
    w: World,
    verdict: Verdict,
    after: World,
)
    ensures
        evaluated(filter, w, verdict, after) <==> (verdict !is Fail && evaluated(
            filter.first,
            w,
            verdict,
            after,
        )) || exists|mid: World| #[trigger]
            evaluated(filter.first, w, Verdict::Fail, mid) && evaluated(
                filter.second,
                mid,
                verdict,
                after,
            ),
        filter.sync() <==> filter.first.sync() && filter.second.sync(),
        filter.segment() is None,
        filter.valid() <==> filter.first.valid() && filter.second.valid(),
{
    if evaluated(filter, w, verdict, after) {
        let (first, mid) = choose|first: Verdict, mid: World| #[trigger]
            evaluated(filter.first, w, first, mid) && filter.continued(first, mid, verdict, after);
        assert(evaluated(filter.first, w, first, mid));
    }
    if verdict !is Fail && evaluated(filter.first, w, verdict, after) {
        assert(filter.continued(verdict, after, verdict, after));
    }
    if exists|mid: World| #[trigger]
        evaluated(filter.first, w, Verdict::Fail, mid) && evaluated(
            filter.second,
            mid,
            verdict,
            after,
        ) {
        let mid = choose|mid: World| #[trigger]
            evaluated(filter.first, w, Verdict::Fail, mid) && evaluated(
                filter.second,
                mid,
                verdict,
                after,
            );
        assert(filter.continued(Verdict::Fail, mid, verdict, after));
    }
}

/// Whether a call of `f` in the world `w` may answer `matched` and leave the world `after`:
/// it is called on that request and path, and hands back those.
pub open spec fn may_answer<F>(f: F, w: World, matched: bool, after: World) -> bool where
    F: Fn(Request, PathState) -> (bool, Request, PathState) + Send + Sync + 'static,
 {
    exists|req: Request, path: PathState, req2: Request, path2: PathState|
        req == w.req && path@ == w.path && req2 == after.req && path2@ == after.path
            && after.asked == w.asked && #[trigger] call_ensures(
            f,
            (req, path),
            (matched, req2, path2),
        )
}

/// A function filter answers what its function answers, leaves what its function leaves,
/// and never waits.
pub proof fn fn_filter_answers_as_called<F>(
    filter: FnFilter<F>,
    w: World,
    verdict: Verdict,
    after: World,
) where F: Fn(Request, PathState) -> (bool, Request, PathState) + Send + Sync + 'static
    ensures
        evaluated(filter, w, verdict, after) <==> (verdict is Pass && may_answer(
            filter.0,
            w,
            true,
            after,
        )) || (verdict is Fail && may_answer(filter.0, w, false, after)),
        filter.sync(),
{
    lemma_call(filter.0, w, verdict, after);
}

proof fn lemma_call<F>(f: F, w: World, verdict: Verdict, after: World) where
    F: Fn(Request, PathState) -> (bool, Request, PathState) + Send + Sync + 'static,

    ensures
        evaluated(FnFilter(f), w, verdict, after) <==> (verdict is Pass && may_answer(
            f,
            w,
            true,
            after,
        )) || (verdict is Fail && may_answer(f, w, false, after)),
{
    if evaluated(FnFilter(f), w, verdict, after) {
        let (req, path, req2, path2) = choose|
            req: Request,
            path: PathState,
            req2: Request,
            path2: PathState,
        |
            world(req, path, w.asked) == w && world(req2, path2, w.asked) == after
                && #[trigger] call_ensures(f, (req, path), (verdict is Pass, req2, path2));
        assert(call_ensures(f, (req, path), (verdict is Pass, req2, path2)));
        assert(may_answer(f, w, verdict is Pass, after));
    }
    if verdict !is Waits && may_answer(f, w, verdict is Pass, after) {
        let (req, path, req2, path2) = choose|
            req: Request,
            path: PathState,
            req2: Request,
            path2: PathState,
        |
            req == w.req && path@ == w.path && req2 == after.req && path2@ == after.path
                && after.asked == w.asked && #[trigger] call_ensures(
                f,
                (req, path),
                (verdict is Pass, req2, path2),
            );
        assert(world(req, path, w.asked) == w);
        assert(world(req2, path2, w.asked) == after);
        assert(call_ensures(f, (req, path), (verdict is Pass, req2, path2)));
    }
}

/// An `AndThen` calls its function where the filter lets the request pass, on what the
/// filter has left, and then answers as the function does and leaves what it leaves. Where
/// the filter fails or waits, so does it, and the function is not called.
pub proof fn and_then_calls_where_the_filter_passes<T: Filter, F>(
    filter: AndThen<T, F>,
    w: World,
    verdict: Verdict,
    after: World,
) where F: Fn(Request, PathState) -> (bool, Request, PathState) + Send + Sync + 'static
    ensures
        evaluated(filter, w, verdict, after) <==> (verdict !is Pass && evaluated(
            filter.filter,
            w,
            verdict,
            after,
        )) || exists|mid: World| #[trigger]
            evaluated(filter.filter, w, Verdict::Pass, mid) && ((verdict is Pass && may_answer(
                filter.callback,
                mid,
                true,
                after,
            )) || (verdict is Fail && may_answer(filter.callback, mid, false, after))),
        filter.sync() == filter.filter.sync(),
        filter.segment() == filter.filter.segment(),
{
    assert forall|mid: World| #![trigger evaluated(filter.filter, w, Verdict::Pass, mid)]
        evaluated(filter.filter, w, Verdict::Pass, mid) implies evaluated(
        FnFilter(filter.callback),
        mid,
        verdict,
        after,
    ) == ((verdict is Pass && may_answer(filter.callback, mid, true, after)) || (verdict is Fail
        && may_answer(filter.callback, mid, false, after))) by {
        lemma_call(filter.callback, mid, verdict, after);
    }
    if evaluated(filter, w, verdict, after) {
        let (first, mid) = choose|first: Verdict, mid: World| #[trigger]
            evaluated(filter.filter, w, first, mid) && filter.continued(first, mid, verdict, after);
        assert(evaluated(filter.filter, w, first, mid));
        lemma_call(filter.callback, mid, verdict, after);
    }
    if verdict !is Pass && evaluated(filter.filter, w, verdict, after) {
        assert(filter.continued(verdict, after, verdict, after));
    }
    if exists|mid: World| #[trigger]
        evaluated(filter.filter, w, Verdict::Pass, mid) && ((verdict is Pass && may_answer(
            filter.callback,
            mid,
            true,
            after,
        )) || (verdict is Fail && may_answer(filter.callback, mid, false, after))) {
        let mid = choose|mid: World| #[trigger]
            evaluated(filter.filter, w, Verdict::Pass, mid) && ((verdict is Pass && may_answer(
                filter.callback,
                mid,
                true,
                after,
            )) || (verdict is Fail && may_answer(filter.callback, mid, false, after)));
        lemma_call(filter.callback, mid, verdict, after);
        assert(filter.continued(Verdict::Pass, mid, verdict, after));
    }
}

/// An `OrElse` calls its function where the filter fails, on what the filter has left, and
/// then answers as the function does and leaves what it leaves: it fails where both fail.
/// Where the filter passes or waits, so does it, and the function is not called.
pub proof fn or_else_calls_where_the_filter_fails<T: Filter, F>(
    filter: OrElse<T, F>,
    w: World,
    verdict: Verdict,
    after: World,
) where F: Fn(Request, PathState) -> (bool, Request, PathState) + Send + Sync + 'static
    ensures
        evaluated(filter, w, verdict, after) <==> (verdict !is Fail && evaluated(
            filter.filter,
            w,
            verdict,
            after,
        )) || exists|mid: World| #[trigger]
            evaluated(filter.filter, w, Verdict::Fail, mid) && ((verdict is Pass && may_answer(
                filter.callback,
                mid,
                true,
                after,
            )) || (verdict is Fail && may_answer(filter.callback, mid, false, after))),
        filter.sync() == filter.filter.sync(),
        filter.segment() is None,
{
    if evaluated(filter, w, verdict, after) {
        let (first, mid) = choose|first: Verdict, mid: World| #[trigger]
            evaluated(filter.filter, w, first, mid) && filter.continued(first, mid, verdict, after);
        assert(evaluated(filter.filter, w, first, mid));
        lemma_call(filter.callback, mid, verdict, after);
    }
    if verdict !is Fail && evaluated(filter.filter, w, verdict, after) {
        assert(filter.continued(verdict, after, verdict, after));
    }
    if exists|mid: World| #[trigger]
        evaluated(filter.filter, w, Verdict::Fail, mid) && ((verdict is Pass && may_answer(
            filter.callback,
            mid,
            true,
            after,
        )) || (verdict is Fail && may_answer(filter.callback, mid, false, after))) {
        let mid = choose|mid: World| #[trigger]
            evaluated(filter.filter, w, Verdict::Fail, mid) && ((verdict is Pass && may_answer(
                filter.callback,
                mid,
                true,
                after,
            )) || (verdict is Fail && may_answer(filter.callback, mid, false, after)));
        lemma_call(filter.callback, mid, verdict, after);
        assert(filter.continued(Verdict::Fail, mid, verdict, after));
    }
}

/// A method filter passes the requests with its method and no others, and changes nothing.
pub proof fn method_filter_asks_for_its_method(
    filter: MethodFilter,
    w: World,
    verdict: Verdict,
    after: World,
)
    ensures
        evaluated(filter, w, verdict, after) <==> after == w && verdict == (if (match (
            w.req.method,
            filter.0,
        ) {
            (Method::Extension(a), Method::Extension(b)) => a@ == b@,
            (a, b) => a == b,
        }) {
            Verdict::Pass
        } else {
            Verdict::Fail
        }),
        filter.described() == InfoView::Method(filter.0),
{
}

/// A scheme filter passes the requests with its scheme and no others, and changes nothing.
pub proof fn scheme_filter_asks_for_its_scheme(
    filter: SchemeFilter,
    w: World,
    verdict: Verdict,
    after: World,
)
    ensures
        evaluated(filter, w, verdict, after) <==> after == w && verdict == (if (match (
            w.req.scheme,
            filter.scheme,
        ) {
            (Some(Scheme::Other(a)), Scheme::Other(b)) => a@ == b@,
            (a, b) => a == Some(b),
        }) {
            Verdict::Pass
        } else {
            Verdict::Fail
        }),
        filter.described() == InfoView::Scheme(filter.scheme),
{
}

/// A host filter passes the requests to its host and no others, and changes nothing.
pub proof fn host_filter_asks_for_its_host(
    filter: HostFilter,
    w: World,
    verdict: Verdict,
    after: World,
)
    ensures
        evaluated(filter, w, verdict, after) <==> after == w && verdict == (match w.req.host {
            Some(host) if host@ == filter.host@ => Verdict::Pass,
            _ => Verdict::Fail,
        }),
        filter.described() == InfoView::Host(filter.host@),
{
}

/// A port filter passes the requests to its port and no others, and changes nothing.
pub proof fn port_filter_asks_for_its_port(
    filter: PortFilter,
    w: World,
    verdict: Verdict,
    after: World,
)
    ensures
        evaluated(filter, w, verdict, after) <==> after == w && verdict == (match w.req.port {
            Some(port) if port == filter.port => Verdict::Pass,
            _ => Verdict::Fail,
        }),
        filter.described() == InfoView::Port(filter.port),
{
}

/// A deferred filter waits for its test on the request and the path as they are. Once the
/// test has answered, it passes where the test said yes, fails where it said no, and leaves
/// what the test left.
pub proof fn deferred_filter_takes_the_answer(
    filter: Deferred,
    w: World,
    verdict: Verdict,
    after: World,
)
    ensures
        evaluated(filter, w, verdict, after) <==> (verdict == Verdict::Waits(filter.key) && after
            == w) || (verdict !is Waits && after.asked == w.asked.push(
            Reply {
                key: filter.key,
                req: w.req,
                path: w.path,
                answer: verdict is Pass,
                left_req: after.req,
                left_path: after.path,
            },
        )),
        !filter.sync(),
{
    let reply = Reply {
        key: filter.key,
        req: w.req,
        path: w.path,
        answer: verdict is Pass,
        left_req: after.req,
        left_path: after.path,
    };
    if evaluated(filter, w, verdict, after) && verdict !is Waits {
        assert(after.asked =~= w.asked.push(reply));
    }
    if after.asked == w.asked.push(reply) {
        assert(after.asked.drop_last() =~= w.asked);
    }
}

/// Whether the filters are evaluated one after the other, each in the world that the one
/// before it has left, up to and without the one at `n`, and all let the request pass.
pub open spec fn passed_in_turn(filters: Seq<FilterBox>, worlds: Seq<World>, n: int) -> bool {
    forall|i: int|
        0 <= i < n ==> evaluated(
            #[trigger] filters[i],
            worlds[i],
            Verdict::Pass,
            worlds[i + 1],
        )
}

/// The filters of a node are evaluated in the order in which they were added, each in the
/// world that the one before it has left. All have to pass; the first that does not is the
/// last that is asked, and the node comes to what it came to.
pub proof fn filters_are_asked_in_turn(
    filters: Seq<FilterBox>,
    w: World,
    verdict: Verdict,
    after: World,
)
    ensures
        filters_outcome(filters, 0, w, verdict, after) <==> exists|worlds: Seq<World>, n: int|
            0 <= n <= filters.len() && worlds.len() == n + 1 && worlds[0] == w
                && #[trigger] passed_in_turn(filters, worlds, n) && (if n == filters.len() {
                verdict is Pass && after == worlds[n]
            } else {
                verdict !is Pass && evaluated(filters[n], worlds[n], verdict, after)
            }),
{
    if filters_outcome(filters, 0, w, verdict, after) {
        let (worlds, n) = lemma_unroll(filters, 0, w, verdict, after, seq![w]);
        assert(passed_in_turn(filters, worlds, n));
    }
    if exists|worlds: Seq<World>, n: int|
        0 <= n <= filters.len() && worlds.len() == n + 1 && worlds[0] == w
            && #[trigger] passed_in_turn(filters, worlds, n) && (if n == filters.len() {
            verdict is Pass && after == worlds[n]
        } else {
            verdict !is Pass && evaluated(filters[n], worlds[n], verdict, after)
        }) {
        let (worlds, n) = choose|worlds: Seq<World>, n: int|
            0 <= n <= filters.len() && worlds.len() == n + 1 && worlds[0] == w
                && #[trigger] passed_in_turn(filters, worlds, n) && (if n == filters.len() {
                verdict is Pass && after == worlds[n]
            } else {
                verdict !is Pass && evaluated(filters[n], worlds[n], verdict, after)
            });
        lemma_roll(filters, 0, worlds, n, verdict, after);
    }
}

proof fn lemma_unroll(
    filters: Seq<FilterBox>,
    from: int,
    w: World,
    verdict: Verdict,
    after: World,
    worlds: Seq<World>,
) -> (r: (Seq<World>, int))
    requires
        0 <= from <= filters.len(),
        filters_outcome(filters, from, w, verdict, after),
        worlds.len() == from + 1,
        worlds[from] == w,
        passed_in_turn(filters, worlds, from),
    ensures
        from <= r.1 <= filters.len(),
        r.0.len() == r.1 + 1,
        r.0[0] == worlds[0],
        passed_in_turn(filters, r.0, r.1),
        if r.1 == filters.len() {
            verdict is Pass && after == r.0[r.1]
        } else {
            verdict !is Pass && evaluated(filters[r.1], r.0[r.1], verdict, after)
        },
    decreases filters.len() - from,
{
    if from == filters.len() {
        (worlds, from)
    } else {
        let (v, mid) = lemma_first_filter(filters, from, w, verdict, after);
        if v is Pass {
            let more = worlds.push(mid);
            assert forall|i: int| 0 <= i < from + 1 implies evaluated(
                #[trigger] filters[i],
                more[i],
                Verdict::Pass,
                more[i + 1],
            ) by {
                if i < from {
                    assert(evaluated(filters[i], worlds[i], Verdict::Pass, worlds[i + 1]));
                }
            }
            lemma_unroll(filters, from + 1, mid, verdict, after, more)
        } else {
            (worlds, from)
        }
    }
}

proof fn lemma_roll(
    filters: Seq<FilterBox>,
    from: int,
    worlds: Seq<World>,
    n: int,
    verdict: Verdict,
    after: World,
)
    requires
        0 <= from <= n <= filters.len(),
        worlds.len() == n + 1,
        passed_in_turn(filters, worlds, n),
        if n == filters.len() {
            verdict is Pass && after == worlds[n]
        } else {
            verdict !is Pass && evaluated(filters[n], worlds[n], verdict, after)
        },
    ensures
        filters_outcome(filters, from, worlds[from], verdict, after),
    decreases n - from,
{
    if from < n {
        lemma_roll(filters, from + 1, worlds, n, verdict, after);
        assert(evaluated(filters[from], worlds[from], Verdict::Pass, worlds[from + 1]));
    }
}

} // verus!
