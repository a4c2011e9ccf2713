//! What holds of the filters of the library, whatever they are asked.

use vstd::prelude::*;

use crate::conduct::{
    alike, comparable, decided, demands, entries_agree, granted, keeps_parts, leaves_revocable,
    mild, reaches, revocable, tame, within,
};
use crate::detection_laws::{granted_stays, mild_from_the_start};
use crate::filters::{
    acts_as, call_total, call_verdict, evaluated, Deferred, Filter, FilterBox, FnFilter, InfoView,
    Reply, Verdict, World,
};
use crate::http::Request;
use crate::laws::{lemma_name_index, rollback_undoes_capture, tame_from_the_start};
use crate::opts::{And, AndThen, Or, OrElse};
use crate::others::{HostFilter, MethodFilter, PortFilter, SchemeFilter};
use crate::path_filter::{captured, cut, matching, rest_text, step, walked, PathFilter};
use crate::path_pattern::{PieceView, WispView};
use crate::path_state::{at_most, Mark, ParamsView, PathState, PathView};

verus! {

/// What happens to a path in two steps can be taken back where each step can.
pub proof fn revocable_in_steps(before: PathView, mid: PathView, after: PathView)
    requires
        revocable(before, mid),
        revocable(mid, after),
    ensures
        revocable(before, after),
{
    assert forall|mark: Mark| #[trigger] reaches(before, mark) implies reaches(after, mark)
        && after.rolled_back(mark) == (PathView {
        once_ended: after.once_ended,
        ..before.rolled_back(mark)
    }) by {
        assert(reaches(mid, mark));
    }
}

/// What can be taken back leaves the parts of the path alone.
pub proof fn revocable_keeps_parts(before: PathView, after: PathView)
    requires
        revocable(before, after),
    ensures
        after.parts == before.parts,
        after.end_slash == before.end_slash,
{
    assert(reaches(before, before.mark()));
}

proof fn lemma_captures_undone(
    params: ParamsView,
    pieces: Seq<PieceView>,
    values: Seq<Seq<char>>,
    n: int,
    snapshot: (nat, bool, nat),
)
    requires
        snapshot.0 <= params.entries.len(),
        snapshot.2 <= params.undo.len(),
    ensures
        snapshot.0 <= captured(params, pieces, values, n).entries.len(),
        snapshot.2 <= captured(params, pieces, values, n).undo.len(),
        captured(params, pieces, values, n).rolled_back(snapshot) == params.rolled_back(snapshot),
    decreases n,
{
    if n > 0 {
        lemma_captures_undone(params, pieces, values, n - 1, snapshot);
        let before = captured(params, pieces, values, n - 1);
        match pieces[n - 1] {
            PieceView::Text(_) => {},
            PieceView::Any(name) | PieceView::Num(name, _, _) => {
                lemma_name_index(before.entries, name, 0);
                rollback_undoes_capture(before, name, values[n - 1], snapshot);
            },
        }
    }
}

proof fn lemma_step_revocable(wisp: WispView, path: PathView)
    requires
        step(wisp, path) is Some,
    ensures
        revocable(path, step(wisp, path)->0),
{
    let next = step(wisp, path)->0;
    assert forall|mark: Mark| #[trigger] reaches(path, mark) implies reaches(next, mark)
        && next.rolled_back(mark) == (PathView {
        once_ended: next.once_ended,
        ..path.rolled_back(mark)
    }) by {
        match wisp {
            WispView::Const(_) => {},
            WispView::Mixed(pieces) => {
                lemma_captures_undone(
                    path.params,
                    pieces,
                    cut(pieces, 0, path.pick()->0)->0,
                    pieces.len() as int,
                    mark.params,
                );
            },
            WispView::Rest(_, name) => {
                lemma_name_index(path.params.entries, name, 0);
                rollback_undoes_capture(path.params, name, rest_text(path), mark.params);
                assert(next.params.rolled_back(mark.params) =~= path.params.rolled_back(
                    mark.params,
                ));
            },
        }
        assert(at_most(next.matched_parts, mark.matched_parts as int) =~= at_most(
            path.matched_parts,
            mark.matched_parts as int,
        ));
        assert(next.rolled_back(mark) =~= PathView {
            once_ended: next.once_ended,
            ..path.rolled_back(mark)
        });
    }
}

proof fn lemma_walk_revocable(wisps: Seq<WispView>, from: int, path: PathView)
    ensures
        revocable(path, walked(wisps, from, path).1),
    decreases wisps.len() - from,
{
    if from < wisps.len() {
        if let Some(next) = step(wisps[from], path) {
            lemma_step_revocable(wisps[from], path);
            lemma_walk_revocable(wisps, from + 1, next);
            revocable_in_steps(path, next, walked(wisps, from + 1, next).1);
        }
    }
}

/// The path decides what a path filter answers, and all that it does to the path can
/// be taken back.
pub proof fn path_filter_conduct(filter: PathFilter)
    ensures
        decided(filter),
        leaves_revocable(filter),
        keeps_parts(filter),
        entries_agree(filter),
{
    assert forall|w: World, verdict: Verdict, after: World| #[trigger]
        evaluated(filter, w, verdict, after) implies revocable(w.path, after.path)
        && after.path.parts == w.path.parts by {
        if let Some(wisps) = filter.meaning() {
            let end = walked(wisps, 0, w.path).1;
            lemma_walk_revocable(wisps, 0, w.path);
            if verdict is Fail {
                let back = matching(wisps, w.path).1;
                assert forall|mark: Mark| #[trigger] reaches(w.path, mark) implies reaches(
                    back,
                    mark,
                ) && back.rolled_back(mark) == (PathView {
                    once_ended: back.once_ended,
                    ..w.path.rolled_back(mark)
                }) by {
                    assert(reaches(end, mark));
                    assert(back.rolled_back(mark) =~= PathView {
                        once_ended: back.once_ended,
                        ..w.path.rolled_back(mark)
                    });
                }
            }
        }
        revocable_keeps_parts(w.path, after.path);
    }
}

/// A filter on the method changes nothing, and the request decides its answer.
pub proof fn method_filter_conduct(filter: MethodFilter)
    ensures
        decided(filter),
        leaves_revocable(filter),
        keeps_parts(filter),
        entries_agree(filter),
{
}

/// A filter on the scheme changes nothing, and the request decides its answer.
pub proof fn scheme_filter_conduct(filter: SchemeFilter)
    ensures
        decided(filter),
        leaves_revocable(filter),
        keeps_parts(filter),
        entries_agree(filter),
{
}

/// A filter on the host changes nothing, and the request decides its answer.
pub proof fn host_filter_conduct(filter: HostFilter)
    ensures
        decided(filter),
        leaves_revocable(filter),
        keeps_parts(filter),
        entries_agree(filter),
{
}

/// A filter on the port changes nothing, and the request decides its answer.
pub proof fn port_filter_conduct(filter: PortFilter)
    ensures
        decided(filter),
        leaves_revocable(filter),
        keeps_parts(filter),
        entries_agree(filter),
{
}

/// What an outside test says decides what comes of it: it lets a request pass where it says
/// yes, leaves what it left, and is asked on the request and the path as they are.
pub proof fn deferred_conduct(filter: Deferred)
    ensures
        decided(filter),
        leaves_revocable(filter),
        keeps_parts(filter),
        entries_agree(filter),
        demands(filter, filter.key),
        forall|w: World, verdict: Verdict, after: World|
            #![trigger evaluated(filter, w, verdict, after)]
            verdict is Waits ==> (evaluated(filter, w, verdict, after) <==> verdict
                == Verdict::Waits(filter.key) && after == w),
        filter.described() == InfoView::Other(filter.named()),
{
    assert forall|w: World, verdict: Verdict, after: World| #[trigger]
        evaluated(filter, w, verdict, after) && verdict !is Waits implies after.asked.len()
        == w.asked.len() + 1 && after.asked[w.asked.len() as int] == (Reply {
        key: filter.key,
        req: w.req,
        path: w.path,
        answer: verdict is Pass,
        left_req: after.req,
        left_path: after.path,
    }) && after.asked.take(w.asked.len() as int) == w.asked by {
        assert(after.asked.take(w.asked.len() as int) =~= after.asked.drop_last());
    }
    assert forall|
        w: World,
        v1: Verdict,
        a1: World,
        h1: Seq<Reply>,
        v2: Verdict,
        a2: World,
        h2: Seq<Reply>,
    |
        #![trigger evaluated(filter, w, v1, a1), evaluated(filter, w, v2, a2), alike(h1, h2)]
        evaluated(filter, w, v1, a1) && evaluated(filter, w, v2, a2) && within(
            v1 is Waits,
            a1,
            h1,
        ) && within(v2 is Waits, a2, h2) && comparable(
            v1 is Waits,
            v2 is Waits,
            h1,
            h2,
        ) implies v1 == v2 && a1 == a2 by {
        let n = w.asked.len() as int;
        if v1 !is Waits && v2 !is Waits {
            assert(h1.take(n) =~= w.asked);
            assert(h2.take(n) =~= w.asked);
            assert(h1[n] == a1.asked[n] && h2[n] == a2.asked[n]);
            assert(a1.asked =~= w.asked.push(a1.asked[n]));
            assert(a2.asked =~= w.asked.push(a2.asked[n]));
        }
    }
    assert forall|w: World, verdict: Verdict, after: World| #[trigger]
        evaluated(filter, w, verdict, after) && mild(after.asked) implies revocable(
        w.path,
        after.path,
    ) by {
        if verdict !is Waits {
            assert(revocable(
                after.asked[w.asked.len() as int].path,
                after.asked[w.asked.len() as int].left_path,
            ));
        }
    }
}

/// A function filter answers as its function does, on every request where the function
/// takes every request, and never waits.
pub proof fn fn_filter_conduct<F>(filter: FnFilter<F>) where
    F: Fn(Request, PathState) -> (bool, Request, PathState) + Send + Sync + 'static,

    ensures
        filter.valid() <==> call_total(filter.0),
        filter.sync(),
        forall|w: World, verdict: Verdict, after: World| #[trigger]
            evaluated(filter, w, verdict, after) == call_verdict(filter.0, w, verdict, after),
        entries_agree(filter),
        filter.described() == InfoView::Other(filter.named()),
{
}

/// What holds of both parts of an `And` holds of the whole.
pub proof fn and_conduct<T: Filter, U: Filter>(filter: And<T, U>)
    ensures
        keeps_parts(filter.first) && keeps_parts(filter.second) ==> keeps_parts(filter),
        leaves_revocable(filter.first) && leaves_revocable(filter.second) ==> leaves_revocable(
            filter,
        ),
        decided(filter.first) && decided(filter.second) ==> decided(filter),
        entries_agree(filter),
        filter.described() == InfoView::Other(filter.named()),
{
    if leaves_revocable(filter.first) && leaves_revocable(filter.second) {
        assert forall|w: World, verdict: Verdict, after: World| #[trigger]
            evaluated(filter, w, verdict, after) && mild(after.asked) implies revocable(
            w.path,
            after.path,
        ) by {
            let (first, mid) = choose|first: Verdict, mid: World| #[trigger]
                evaluated(filter.first, w, first, mid) && filter.continued(
                    first,
                    mid,
                    verdict,
                    after,
                );
            if first is Pass {
                mild_from_the_start(mid.asked, after.asked);
                revocable_in_steps(w.path, mid.path, after.path);
            }
        }
    }
    if keeps_parts(filter.first) && keeps_parts(filter.second) {
        assert forall|w: World, verdict: Verdict, after: World| #[trigger]
            evaluated(filter, w, verdict, after) && tame(after.asked) implies after.path.parts
            == w.path.parts by {
            let (first, mid) = choose|first: Verdict, mid: World| #[trigger]
                evaluated(filter.first, w, first, mid) && filter.continued(
                    first,
                    mid,
                    verdict,
                    after,
                );
            if first is Pass {
                tame_from_the_start(mid.asked, after.asked);
            }
        }
    }
}

/// An `And` matches only where the outside tests say yes that its parts demand.
pub proof fn and_demands<T: Filter, U: Filter>(filter: And<T, U>, key: usize)
    requires
        demands(filter.first, key) || demands(filter.second, key),
    ensures
        demands(filter, key),
{
    assert forall|w: World, verdict: Verdict, after: World| #[trigger]
        evaluated(filter, w, verdict, after) && verdict is Pass implies granted(
        w.asked,
        after.asked,
        key,
    ) by {
        let (first, mid) = choose|first: Verdict, mid: World| #[trigger]
            evaluated(filter.first, w, first, mid) && filter.continued(first, mid, verdict, after);
        assert(evaluated(filter.second, mid, verdict, after));
        if demands(filter.first, key) {
            granted_stays(w.asked, mid.asked, after.asked, key);
        } else {
            assert(granted(mid.asked, after.asked, key));
        }
    }
}

/// What holds of both parts of an `Or` holds of the whole.
pub proof fn or_conduct<T: Filter, U: Filter>(filter: Or<T, U>)
    ensures
        keeps_parts(filter.first) && keeps_parts(filter.second) ==> keeps_parts(filter),
        leaves_revocable(filter.first) && leaves_revocable(filter.second) ==> leaves_revocable(
            filter,
        ),
        decided(filter.first) && decided(filter.second) ==> decided(filter),
        entries_agree(filter),
        filter.described() == InfoView::Other(filter.named()),
{
    if leaves_revocable(filter.first) && leaves_revocable(filter.second) {
        assert forall|w: World, verdict: Verdict, after: World| #[trigger]
            evaluated(filter, w, verdict, after) && mild(after.asked) implies revocable(
            w.path,
            after.path,
        ) by {
            let (first, mid) = choose|first: Verdict, mid: World| #[trigger]
                evaluated(filter.first, w, first, mid) && filter.continued(
                    first,
                    mid,
                    verdict,
                    after,
                );
            if first is Fail {
                mild_from_the_start(mid.asked, after.asked);
                revocable_in_steps(w.path, mid.path, after.path);
            }
        }
    }
    if keeps_parts(filter.first) && keeps_parts(filter.second) {
        assert forall|w: World, verdict: Verdict, after: World| #[trigger]
            evaluated(filter, w, verdict, after) && tame(after.asked) implies after.path.parts
            == w.path.parts by {
            let (first, mid) = choose|first: Verdict, mid: World| #[trigger]
                evaluated(filter.first, w, first, mid) && filter.continued(
                    first,
                    mid,
                    verdict,
                    after,
                );
            if first is Fail {
                tame_from_the_start(mid.asked, after.asked);
            }
        }
    }
}

/// What holds of the filter and the callback of an `AndThen` holds of the whole.
pub proof fn and_then_conduct<T: Filter, F>(filter: AndThen<T, F>) where
    F: Fn(Request, PathState) -> (bool, Request, PathState) + Send + Sync + 'static,

    ensures
        keeps_parts(filter.filter) && keeps_parts(FnFilter(filter.callback)) ==> keeps_parts(
            filter,
        ),
        leaves_revocable(filter.filter) && leaves_revocable(FnFilter(filter.callback))
            ==> leaves_revocable(filter),
        decided(filter.filter) && decided(FnFilter(filter.callback)) ==> decided(filter),
        entries_agree(filter),
        filter.described() == InfoView::Other(filter.named()),
{
    let callback = FnFilter(filter.callback);
    assert forall|w: World, verdict: Verdict, after: World| #[trigger]
        evaluated(filter, w, verdict, after) implies exists|first: Verdict, mid: World| #[trigger]
        evaluated(filter.filter, w, first, mid) && (if first is Pass {
            evaluated(callback, mid, verdict, after)
        } else {
            verdict == first && after == mid
        }) by {}
    if leaves_revocable(filter.filter) && leaves_revocable(callback) {
        assert forall|w: World, verdict: Verdict, after: World| #[trigger]
            evaluated(filter, w, verdict, after) && mild(after.asked) implies revocable(
            w.path,
            after.path,
        ) by {
            let (first, mid) = choose|first: Verdict, mid: World| #[trigger]
                evaluated(filter.filter, w, first, mid) && (if first is Pass {
                    evaluated(callback, mid, verdict, after)
                } else {
                    verdict == first && after == mid
                });
            if first is Pass {
                mild_from_the_start(mid.asked, after.asked);
                revocable_in_steps(w.path, mid.path, after.path);
            }
        }
    }
}

/// What holds of the filter and the callback of an `OrElse` holds of the whole.
pub proof fn or_else_conduct<T: Filter, F>(filter: OrElse<T, F>) where
    F: Fn(Request, PathState) -> (bool, Request, PathState) + Send + Sync + 'static,

    ensures
        keeps_parts(filter.filter) && keeps_parts(FnFilter(filter.callback)) ==> keeps_parts(
            filter,
        ),
        leaves_revocable(filter.filter) && leaves_revocable(FnFilter(filter.callback))
            ==> leaves_revocable(filter),
        decided(filter.filter) && decided(FnFilter(filter.callback)) ==> decided(filter),
        entries_agree(filter),
        filter.described() == InfoView::Other(filter.named()),
{
    let callback = FnFilter(filter.callback);
    assert forall|w: World, verdict: Verdict, after: World| #[trigger]
        evaluated(filter, w, verdict, after) implies exists|first: Verdict, mid: World| #[trigger]
        evaluated(filter.filter, w, first, mid) && (if first is Fail {
            evaluated(callback, mid, verdict, after)
        } else {
            verdict == first && after == mid
        }) by {}
    if leaves_revocable(filter.filter) && leaves_revocable(callback) {
        assert forall|w: World, verdict: Verdict, after: World| #[trigger]
            evaluated(filter, w, verdict, after) && mild(after.asked) implies revocable(
            w.path,
            after.path,
        ) by {
            let (first, mid) = choose|first: Verdict, mid: World| #[trigger]
                evaluated(filter.filter, w, first, mid) && (if first is Fail {
                    evaluated(callback, mid, verdict, after)
                } else {
                    verdict == first && after == mid
                });
            if first is Fail {
                mild_from_the_start(mid.asked, after.asked);
                revocable_in_steps(w.path, mid.path, after.path);
            }
        }
    }
}

/// Boxing a filter changes nothing that holds of it.
pub proof fn boxed_conduct<F: Filter>(boxed: FilterBox, filter: F)
    requires
        acts_as(boxed, filter),
    ensures
        keeps_parts(filter) ==> keeps_parts(boxed),
        leaves_revocable(filter) ==> leaves_revocable(boxed),
        decided(filter) ==> decided(boxed),
        entries_agree(filter) ==> entries_agree(boxed),
        forall|key: usize| demands(filter, key) ==> #[trigger] demands(boxed, key),
{
    assert forall|w: World, verdict: Verdict, after: World| #[trigger]
        evaluated(boxed, w, verdict, after) == evaluated(filter, w, verdict, after) by {
        assert(boxed.outcome(w, verdict, after) == filter.outcome(w, verdict, after));
        assert(boxed.sync_outcome(w, verdict, after) == filter.sync_outcome(w, verdict, after));
    }
}

} // verus!
