//! What filters may and may not do to the world that they see.

use vstd::prelude::*;

use crate::filters::{continues, evaluated, Filter, Reply, Verdict, World};
use crate::path_state::{Mark, PathView};
use crate::router::Router;
use crate::semantics::wide;

verus! {

/// Whether no outside test that was asked exchanged the parts of the path.
pub open spec fn tame(asked: Seq<Reply>) -> bool {
    forall|i: int|
        0 <= i < asked.len() ==> (#[trigger] asked[i]).left_path.parts == asked[i].path.parts
}

/// Whether a filter leaves the parts of the path alone where the outside tests do.
pub open spec fn keeps_parts<F: Filter>(filter: F) -> bool {
    forall|w: World, verdict: Verdict, after: World| #[trigger]
        evaluated(filter, w, verdict, after) && tame(after.asked) ==> after.path.parts
            == w.path.parts
}

/// Whether the static segment that a filter declares can be relied on: where
/// another segment comes next, the filter answers `false` and changes nothing.
pub open spec fn hint_holds<F: Filter>(filter: F) -> bool {
    filter.segment() is Some ==> forall|w: World, verdict: Verdict, after: World|
        #![trigger evaluated(filter, w, verdict, after)]
        w.path.pick() != filter.segment() ==> (evaluated(filter, w, verdict, after) <==> (
        verdict is Fail && after == w))
}

/// Whether every filter of the tree leaves the parts of the path alone.
pub open spec fn all_keep_parts(router: Router) -> bool
    decreases router,
{
    &&& forall|i: int|
        0 <= i < router.filters@.len() ==> keeps_parts(#[trigger] router.filters@[i])
    &&& forall|i: int|
        0 <= i < router.routers@.len() ==> all_keep_parts(#[trigger] router.routers@[i])
}

/// Whether every filter below a wide node leaves the parts of the path alone.
pub open spec fn steady(router: Router) -> bool
    decreases router,
{
    &&& wide(router.routers@) ==> forall|i: int|
        0 <= i < router.routers@.len() ==> all_keep_parts(#[trigger] router.routers@[i])
    &&& forall|i: int| 0 <= i < router.routers@.len() ==> steady(#[trigger] router.routers@[i])
}

/// Whether the static segments that the children of wide nodes declare can be
/// relied on.
pub open spec fn hints_hold(router: Router) -> bool
    decreases router,
{
    &&& wide(router.routers@) ==> forall|i: int|
        0 <= i < router.routers@.len() && (#[trigger] router.routers@[i]).filters@.len() > 0
            ==> hint_holds(router.routers@[i].filters@[0])
    &&& forall|i: int| 0 <= i < router.routers@.len() ==> hints_hold(#[trigger] router.routers@[i])
}

/// Whether a path that stands at `path` can still be taken back to `mark`.
pub open spec fn reaches(path: PathView, mark: Mark) -> bool {
    &&& mark.params.0 <= path.params.entries.len()
    &&& mark.params.2 <= path.params.undo.len()
    &&& mark.matched_parts <= path.matched_parts.len()
}

/// Whether all that happened to a path between `before` and `after` can be taken back:
/// to every mark from before, the two go back to the same path. That the end was
/// reached once is not taken back.
pub open spec fn revocable(before: PathView, after: PathView) -> bool {
    &&& before.once_ended ==> after.once_ended
    &&& forall|mark: Mark| #[trigger]
        reaches(before, mark) ==> reaches(after, mark) && after.rolled_back(mark) == (PathView {
            once_ended: after.once_ended,
            ..before.rolled_back(mark)
        })
}

/// Whether what the outside tests that were asked did to the path can be taken back.
pub open spec fn mild(asked: Seq<Reply>) -> bool {
    forall|i: int|
        0 <= i < asked.len() ==> revocable((#[trigger] asked[i]).path, asked[i].left_path)
}

/// Whether what a filter does to the path can be taken back where that holds of the
/// outside tests.
pub open spec fn leaves_revocable<F: Filter>(filter: F) -> bool {
    forall|w: World, verdict: Verdict, after: World| #[trigger]
        evaluated(filter, w, verdict, after) && mild(after.asked) ==> revocable(w.path, after.path)
}

/// Whether what any filter of the tree does to the path can be taken back.
pub open spec fn all_revocable(router: Router) -> bool
    decreases router,
{
    &&& forall|i: int|
        0 <= i < router.filters@.len() ==> leaves_revocable(#[trigger] router.filters@[i])
    &&& forall|i: int|
        0 <= i < router.routers@.len() ==> all_revocable(#[trigger] router.routers@[i])
}

/// Whether the outside tests answered alike in both histories: where the same was asked
/// after the same had happened, the same came of it.
pub open spec fn alike(h1: Seq<Reply>, h2: Seq<Reply>) -> bool {
    forall|i: int|
        #![trigger h1[i], h2[i]]
        0 <= i < h1.len() && i < h2.len() && h1.take(i) == h2.take(i) && h1[i].key == h2[i].key
            && h1[i].req == h2[i].req && h1[i].path == h2[i].path ==> h1[i] == h2[i]
}

/// Whether two runs can be held against each other that went through the given histories,
/// in which the outside tests answered alike: both went equally far, or neither waits.
pub open spec fn comparable(waits1: bool, waits2: bool, h1: Seq<Reply>, h2: Seq<Reply>) -> bool {
    alike(h1, h2) && (h1.len() == h2.len() || !waits1 && !waits2)
}

/// Whether a run that leaves `after` is a part of one that goes through `history`, and is
/// the whole of it where it waits.
pub open spec fn within(waits: bool, after: World, history: Seq<Reply>) -> bool {
    continues(after.asked, history) && (waits ==> after.asked == history)
}

/// Whether the world and the outside tests decide what a filter comes to and leaves
/// behind.
pub open spec fn decided<F: Filter>(filter: F) -> bool {
    forall|
        w: World,
        v1: Verdict,
        a1: World,
        h1: Seq<Reply>,
        v2: Verdict,
        a2: World,
        h2: Seq<Reply>,
    |
        #![trigger evaluated(filter, w, v1, a1), evaluated(filter, w, v2, a2), alike(h1, h2)]
        evaluated(filter, w, v1, a1) && evaluated(filter, w, v2, a2) && within(
            v1 is Waits,
            a1,
            h1,
        ) && within(v2 is Waits, a2, h2) && comparable(v1 is Waits, v2 is Waits, h1, h2) ==> v1
            == v2 && a1 == a2
}

/// Whether the world and the outside tests decide what each filter of the tree comes to
/// and leaves behind.
pub open spec fn all_decided(router: Router) -> bool
    decreases router,
{
    &&& forall|i: int| 0 <= i < router.filters@.len() ==> decided(#[trigger] router.filters@[i])
    &&& forall|i: int| 0 <= i < router.routers@.len() ==> all_decided(#[trigger] router.routers@[i])
}

/// Whether the outside test `key` was asked and said yes after `before`.
pub open spec fn granted(before: Seq<Reply>, after: Seq<Reply>, key: usize) -> bool {
    exists|j: int|
        before.len() <= j < after.len() && (#[trigger] after[j]).key == key && after[j].answer
}

/// Whether a filter matches only where the outside test `key` says yes.
pub open spec fn demands<F: Filter>(filter: F, key: usize) -> bool {
    forall|w: World, verdict: Verdict, after: World| #[trigger]
        evaluated(filter, w, verdict, after) && verdict is Pass ==> granted(
            w.asked,
            after.asked,
            key,
        )
}

/// Whether the two entry points of a filter that never waits do the same.
pub open spec fn entries_agree<F: Filter>(filter: F) -> bool {
    filter.sync() ==> forall|w: World, verdict: Verdict, after: World|
        #![trigger filter.outcome(w, verdict, after)]
        #![trigger filter.sync_outcome(w, verdict, after)]
        filter.sync_outcome(w, verdict, after) == filter.outcome(w, verdict, after)
}

} // verus!
