//! What holds of the library as a whole.

use vstd::prelude::*;

use crate::conduct::{
    all_decided, all_keep_parts, comparable, hint_holds, hints_hold, keeps_parts, steady, tame,
};
use crate::detection_laws::{detection_is_decided, lemma_descends_replies, lemma_filters_replies};
use crate::filters::{continues, evaluated, FilterBox, Reply, Verdict, World};
use crate::path_state::{name_index, undone, Mark, ParamsView, PathView};
use crate::router::Router;
use crate::semantics::{
    admitted, admitted_from, all_from, candidates, descends, detects, filters_outcome,
    lemma_first_child, lemma_first_filter, lemma_own_filters, raised, rolled_back, wide, Course,
};

verus! {

proof fn lemma_undone_short(
    entries: Seq<(Seq<char>, Seq<char>)>,
    undo: Seq<(int, Seq<char>)>,
    keep: int,
)
    requires
        undo.len() <= keep,
    ensures
        undone(entries, undo, keep) == entries,
{
}

/// Taking the path back twice to one mark is taking it back once.
pub proof fn rollback_is_idempotent(path: PathView, mark: Mark)
    ensures
        path.rolled_back(mark).rolled_back(mark) == path.rolled_back(mark),
{
    let once = path.rolled_back(mark);
    assert(once.rolled_back(mark) =~= once) by {
        lemma_undone_short(once.params.entries, once.params.undo, mark.params.2 as int);
        assert(once.params.rolled_back(mark.params) =~= once.params);
    }
}

/// Taking the path back to where it stands changes nothing.
pub proof fn rollback_to_here_is_nothing(path: PathView)
    ensures
        path.rolled_back(path.mark()) == path,
{
    assert(path.rolled_back(path.mark()) =~= path) by {
        lemma_undone_short(path.params.entries, path.params.undo, path.params.undo.len() as int);
        assert(path.params.rolled_back(path.params.snapshot()) =~= path.params);
    }
}

proof fn lemma_undone_ignores_later(
    entries: Seq<(Seq<char>, Seq<char>)>,
    last: (Seq<char>, Seq<char>),
    undo: Seq<(int, Seq<char>)>,
    keep: int,
)
    ensures
        undone(entries.push(last), undo, keep).len() == entries.len() + 1,
        undone(entries, undo, keep) == undone(entries.push(last), undo, keep).take(
            entries.len() as int,
        ),
    decreases undo.len(),
{
    if undo.len() == 0 || undo.len() <= keep {
        assert(entries.push(last).take(entries.len() as int) =~= entries);
    } else {
        let (at, value) = undo.last();
        if 0 <= at < entries.len() {
            let restored = entries.update(at, (entries[at].0, value));
            lemma_undone_ignores_later(restored, last, undo.drop_last(), keep);
            assert(restored.push(last) =~= entries.push(last).update(
                at,
                (entries[at].0, value),
            ));
        } else if at == entries.len() {
            lemma_undone_ignores_later(entries, (last.0, value), undo.drop_last(), keep);
            assert(entries.push(last).update(at, (last.0, value)) =~= entries.push(
                (last.0, value),
            ));
        } else {
            lemma_undone_ignores_later(entries, last, undo.drop_last(), keep);
        }
    }
}

/// Rolling back undoes a capture made since the snapshot was taken: the parameters
/// come out as if it had not been made, also where it replaced an earlier one.
pub proof fn rollback_undoes_capture(
    params: ParamsView,
    name: Seq<char>,
    value: Seq<char>,
    snapshot: (nat, bool, nat),
)
    requires
        snapshot.0 <= params.entries.len(),
        snapshot.2 <= params.undo.len(),
    ensures
        params.inserted(name, value).rolled_back(snapshot) == params.rolled_back(snapshot),
{
    lemma_name_index(params.entries, name, 0);
    let after = params.inserted(name, value);
    match name_index(params.entries, name, 0) {
        Some(i) => {
            assert(after.undo.drop_last() =~= params.undo);
            assert(after.entries.update(i, (after.entries[i].0, params.entries[i].1))
                =~= params.entries);
        },
        None => {
            lemma_undone_ignores_later(
                params.entries,
                (name, value),
                params.undo,
                snapshot.2 as int,
            );
        },
    }
    assert(after.rolled_back(snapshot) =~= params.rolled_back(snapshot));
}

/// Where a name is found, the pair there has that name.
pub proof fn lemma_name_index(entries: Seq<(Seq<char>, Seq<char>)>, name: Seq<char>, from: int)
    requires
        0 <= from,
    ensures
        name_index(entries, name, from) matches Some(i) ==> from <= i < entries.len()
            && entries[i].0 == name,
    decreases entries.len() - from,
{
    if from < entries.len() && entries[from].0 != name {
        lemma_name_index(entries, name, from + 1);
    }
}

/// What was captured under a name is found under it, and the other names are found
/// with what they had.
pub proof fn capture_is_found(
    params: ParamsView,
    name: Seq<char>,
    value: Seq<char>,
    other: Seq<char>,
)
    ensures
        params.inserted(name, value).lookup(name) == Some(value),
        other != name ==> params.inserted(name, value).lookup(other) == params.lookup(other),
{
    let after = params.inserted(name, value);
    lemma_name_index(params.entries, name, 0);
    lemma_lookup_after(params.entries, after.entries, name, value, other, 0);
}

proof fn lemma_lookup_after(
    before: Seq<(Seq<char>, Seq<char>)>,
    after: Seq<(Seq<char>, Seq<char>)>,
    name: Seq<char>,
    value: Seq<char>,
    other: Seq<char>,
    from: int,
)
    requires
        0 <= from <= before.len(),
        after == match name_index(before, name, from) {
            Some(i) => before.update(i, (name, value)),
            None => before.push((name, value)),
        },
    ensures
        name_index(after, name, from) matches Some(i) && from <= i < after.len() && after[i].1
            == value,
        other != name ==> match name_index(before, other, from) {
            Some(i) => name_index(after, other, from) == Some(i) && from <= i < before.len()
                && after[i].1 == before[i].1,
            None => name_index(after, other, from) is None,
        },
    decreases before.len() - from,
{
    lemma_name_index(before, name, from);
    if from < before.len() {
        if before[from].0 == name {
            lemma_tail_lookup(before, after, other, from + 1);
        } else {
            lemma_lookup_after(before, after, name, value, other, from + 1);
        }
    } else {
        assert(after[from] == (name, value));
        assert(name_index(after, other, from + 1) is None);
    }
}

proof fn lemma_tail_lookup(
    before: Seq<(Seq<char>, Seq<char>)>,
    after: Seq<(Seq<char>, Seq<char>)>,
    other: Seq<char>,
    from: int,
)
    requires
        0 <= from,
        before.len() == after.len(),
        forall|i: int| from <= i < before.len() ==> before[i] == after[i],
    ensures
        name_index(before, other, from) == name_index(after, other, from),
        name_index(before, other, from) matches Some(i) ==> from <= i < before.len(),
    decreases before.len() - from,
{
    if from < before.len() {
        lemma_tail_lookup(before, after, other, from + 1);
    }
}

/// A name that was not captured yet is captured behind the others. A name that was captured
/// keeps its place and gets the new value, and the old value is remembered with its place.
/// Nothing else changes.
pub proof fn capture_changes_one_entry(
    params: ParamsView,
    name: Seq<char>,
    value: Seq<char>,
    i: int,
)
    requires
        0 <= i <= params.entries.len(),
        i < params.entries.len() ==> params.entries[i].0 == name,
        forall|j: int| 0 <= j < i ==> (#[trigger] params.entries[j]).0 != name,
    ensures
        params.inserted(name, value).greedy == params.greedy,
        i == params.entries.len() ==> {
            &&& params.inserted(name, value).entries == params.entries.push((name, value))
            &&& params.inserted(name, value).undo == params.undo
        },
        i < params.entries.len() ==> {
            &&& params.inserted(name, value).entries == params.entries.update(i, (name, value))
            &&& params.inserted(name, value).undo == params.undo.push((i, params.entries[i].1))
        },
{
    lemma_first_named(params.entries, name, 0, i);
}

proof fn lemma_first_named(
    entries: Seq<(Seq<char>, Seq<char>)>,
    name: Seq<char>,
    from: int,
    i: int,
)
    requires
        0 <= from <= i <= entries.len(),
        i < entries.len() ==> entries[i].0 == name,
        forall|j: int| 0 <= j < i ==> (#[trigger] entries[j]).0 != name,
    ensures
        name_index(entries, name, from) == (if i < entries.len() {
            Some(i)
        } else {
            None
        }),
    decreases i - from,
{
    if from < i {
        assert(entries[from].0 != name);
        lemma_first_named(entries, name, from + 1, i);
    }
}

/// What is found under a name is the value of the first entry with that name, and nothing where
/// no entry has it.
pub proof fn first_entry_is_found(params: ParamsView, name: Seq<char>, i: int)
    requires
        0 <= i <= params.entries.len(),
        i < params.entries.len() ==> params.entries[i].0 == name,
        forall|j: int| 0 <= j < i ==> (#[trigger] params.entries[j]).0 != name,
    ensures
        params.lookup(name) == (if i < params.entries.len() {
            Some(params.entries[i].1)
        } else {
            None
        }),
{
    lemma_first_named(params.entries, name, 0, i);
}

proof fn lemma_filters_keep_parts(
    filters: Seq<FilterBox>,
    from: int,
    w: World,
    verdict: Verdict,
    after: World,
)
    requires
        0 <= from,
        forall|i: int| 0 <= i < filters.len() ==> keeps_parts(#[trigger] filters[i]),
        filters_outcome(filters, from, w, verdict, after),
        tame(after.asked),
    ensures
        after.path.parts == w.path.parts,
    decreases filters.len() - from,
{
    if from < filters.len() {
        let (v, mid) = lemma_first_filter(filters, from, w, verdict, after);
        assert(keeps_parts(filters[from]));
        if v is Pass {
            lemma_filters_replies(filters, from + 1, mid, verdict, after);
            tame_from_the_start(mid.asked, after.asked);
            lemma_filters_keep_parts(filters, from + 1, mid, verdict, after);
        }
    }
}

/// Where no outside test exchanged the parts of the path, none did up to any point before.
pub proof fn tame_from_the_start(before: Seq<Reply>, after: Seq<Reply>)
    requires
        continues(before, after),
        tame(after),
    ensures
        tame(before),
{
    assert forall|i: int| 0 <= i < before.len() implies (#[trigger] before[i]).left_path.parts
        == before[i].path.parts by {
        assert(after[i] == before[i]);
    }
}

proof fn lemma_descends_keeps_parts(
    router: Router,
    indexed: bool,
    mark: Mark,
    cands: Seq<int>,
    w: World,
    course: Course,
    after: World,
)
    requires
        all_keep_parts(router),
        descends(router, indexed, mark, cands, w, course, after),
        tame(after.asked),
    ensures
        after.path.parts == w.path.parts,
    decreases router, 0int, cands.len(),
{
    if cands.len() > 0 {
        let child = router.routers@[cands[0]];
        let rest = cands.drop_first();
        let (r, mid) = lemma_first_child(router, indexed, mark, cands, w, course, after);
        let back = rolled_back(mid, mark);
        if r is Nothing {
            lemma_descends_replies(router, indexed, mark, rest, back, course, after);
            tame_from_the_start(mid.asked, after.asked);
            lemma_descends_keeps_parts(router, indexed, mark, rest, back, course, after);
        }
        lemma_detects_keeps_parts(child, indexed, w, r, mid);
    }
}

proof fn lemma_detects_keeps_parts(
    router: Router,
    indexed: bool,
    w: World,
    course: Course,
    after: World,
)
    requires
        all_keep_parts(router),
        detects(router, indexed, w, course, after),
        tame(after.asked),
    ensures
        after.path.parts == w.path.parts,
    decreases router, 1int, 0nat,
{
    let (v, mid) = lemma_own_filters(router, indexed, w, course, after);
    if v is Pass {
        let mark = mid.path.mark();
        let cands = candidates(router.routers@, indexed, mid.path.pick());
        lemma_descends_replies(router, indexed, mark, cands, mid, course, after);
        tame_from_the_start(mid.asked, after.asked);
        lemma_descends_keeps_parts(router, indexed, mark, cands, mid, course, after);
    }
    lemma_filters_keep_parts(router.filters@, 0, w, v, mid);
}

/// A node whose static segment does not come next leads nowhere and changes
/// nothing, whether or not an index is used below it.
pub proof fn ruled_out_node_is_inert(
    child: Router,
    indexed: bool,
    w: World,
    course: Course,
    after: World,
)
    requires
        child.filters@.len() > 0 ==> hint_holds(child.filters@[0]),
        !admitted(child, w.path.pick()),
    ensures
        detects(child, indexed, w, course, after) <==> (course is Nothing && after == w),
{
    assert forall|v: Verdict, mid: World| #[trigger]
        filters_outcome(child.filters@, 0, w, v, mid) == (v is Fail && mid == w) by {
        assert(evaluated(child.filters@[0], w, Verdict::Fail, w));
        if filters_outcome(child.filters@, 0, w, v, mid) {
            let (first, left) = lemma_first_filter(child.filters@, 0, w, v, mid);
            assert(evaluated(child.filters@[0], w, first, left));
        }
    }
    if course is Nothing && after == w {
        assert(filters_outcome(child.filters@, 0, w, Verdict::Fail, w));
    }
}

/// The children from `from` on that a detection tries.
spec fn list_from(router: Router, indexed: bool, pick: Option<Seq<char>>, from: int) -> Seq<int> {
    if indexed && wide(router.routers@) {
        admitted_from(router.routers@, pick, from)
    } else {
        all_from(router.routers@.len() as int, from)
    }
}

proof fn lemma_descends_either_way(
    router: Router,
    indexed: bool,
    mark: Mark,
    pick: Option<Seq<char>>,
    from: int,
    w: World,
    course: Course,
    after: World,
)
    requires
        steady(router),
        hints_hold(router),
        tame(after.asked),
        0 <= from <= router.routers@.len(),
        rolled_back(w, mark) == w,
        wide(router.routers@) ==> w.path.pick() == pick,
        descends(router, indexed, mark, list_from(router, indexed, pick, from), w, course, after),
    ensures
        descends(
            router,
            !indexed,
            mark,
            list_from(router, !indexed, pick, from),
            w,
            course,
            after,
        ),
    decreases router, 0int, router.routers@.len() - from,
{
    let here = list_from(router, indexed, pick, from);
    let there = list_from(router, !indexed, pick, from);
    if from == router.routers@.len() {
        assert(here.len() == 0 && there.len() == 0);
    } else {
        let child = router.routers@[from];
        let is_wide = wide(router.routers@);
        let keep = admitted(child, pick);
        assert(steady(child) && hints_hold(child));
        assert(child.filters@.len() > 0 && is_wide ==> hint_holds(child.filters@[0]));
        if keep || !is_wide {
            let here_next = list_from(router, indexed, pick, from + 1);
            let there_next = list_from(router, !indexed, pick, from + 1);
            assert(here.drop_first() =~= here_next);
            assert(there.drop_first() =~= there_next);
            let (r, mid) = lemma_first_child(router, indexed, mark, here, w, course, after);
            let up = raised(r, router.hoops@);
            let back = rolled_back(mid, mark);
            if r is Nothing {
                lemma_descends_replies(router, indexed, mark, here_next, back, course, after);
                tame_from_the_start(mid.asked, after.asked);
                rollback_is_idempotent(mid.path, mark);
                assert(rolled_back(back, mark) == back);
                if is_wide {
                    lemma_detects_keeps_parts(child, indexed, w, r, mid);
                    assert(back.path.cursor == w.path.cursor);
                    assert(back.path.pick() == pick);
                }
                lemma_descends_either_way(
                    router,
                    indexed,
                    mark,
                    pick,
                    from + 1,
                    back,
                    course,
                    after,
                );
            }
            lemma_detects_either_way(child, indexed, w, r, mid);
        } else if indexed {
            assert(here == list_from(router, indexed, pick, from + 1));
            assert(there.drop_first() =~= list_from(router, !indexed, pick, from + 1));
            lemma_descends_either_way(router, indexed, mark, pick, from + 1, w, course, after);
            let none = Course::Nothing;
            ruled_out_node_is_inert(child, !indexed, w, none, w);
            assert(raised(none, router.hoops@) is Nothing && rolled_back(w, mark) == w);
        } else {
            assert(there == list_from(router, !indexed, pick, from + 1));
            assert(here.drop_first() =~= list_from(router, indexed, pick, from + 1));
            let (r, mid) = lemma_first_child(router, indexed, mark, here, w, course, after);
            ruled_out_node_is_inert(child, indexed, w, r, mid);
            lemma_descends_either_way(router, indexed, mark, pick, from + 1, w, course, after);
        }
    }
}

proof fn lemma_detects_either_way(
    router: Router,
    indexed: bool,
    w: World,
    course: Course,
    after: World,
)
    requires
        steady(router),
        hints_hold(router),
        tame(after.asked),
        detects(router, indexed, w, course, after),
    ensures
        detects(router, !indexed, w, course, after),
    decreases router, 1int, 0int,
{
    let (v, mid) = lemma_own_filters(router, indexed, w, course, after);
    if v is Pass {
        let mark = mid.path.mark();
        rollback_to_here_is_nothing(mid.path);
        lemma_descends_either_way(
            router,
            indexed,
            mark,
            mid.path.pick(),
            0,
            mid,
            course,
            after,
        );
    }
    assert(filters_outcome(router.filters@, 0, w, v, mid));
}

/// Detection by the compiled plan comes to the same results, waits at the same places, and
/// leaves the same request and path behind, as detection by the routing tree itself.
pub proof fn compiled_detection_is_tree_detection(
    router: Router,
    w: World,
    course: Course,
    after: World,
)
    requires
        steady(router),
        hints_hold(router),
        tame(after.asked),
    ensures
        detects(router, true, w, course, after) <==> detects(router, false, w, course, after),
{
    if detects(router, true, w, course, after) {
        lemma_detects_either_way(router, true, w, course, after);
    }
    if detects(router, false, w, course, after) {
        lemma_detects_either_way(router, false, w, course, after);
    }
}

/// A whole detection by the compiled plan and one by the routing tree, from the same
/// request and path and with outside tests that answer alike, come to the same: to the
/// same pauses on the way, in the same order, on the same requests and paths, to the same
/// middleware and goal, and to the same request and path in the end. The two may both be
/// done, or both have got equally far.
pub proof fn plan_and_tree_come_to_the_same(
    router: Router,
    w: World,
    planned: Course,
    planned_after: World,
    walked: Course,
    walked_after: World,
)
    requires
        all_decided(router),
        steady(router),
        hints_hold(router),
        tame(planned_after.asked),
        detects(router, true, w, planned, planned_after),
        detects(router, false, w, walked, walked_after),
        comparable(
            planned is Waits,
            walked is Waits,
            planned_after.asked,
            walked_after.asked,
        ),
    ensures
        planned == walked,
        planned_after == walked_after,
{
    lemma_detects_either_way(router, true, w, planned, planned_after);
    detection_is_decided(router, false, w, planned, planned_after, walked, walked_after);
}

/// Where no filter exchanges the path, none does below a wide node.
pub proof fn keeping_parts_is_steady(router: Router)
    requires
        all_keep_parts(router),
    ensures
        steady(router),
    decreases router,
{
    assert forall|i: int| 0 <= i < router.routers@.len() implies steady(
        #[trigger] router.routers@[i],
    ) by {
        keeping_parts_is_steady(router.routers@[i]);
    }
}

/// What detection by the compiled plan may come to: what its plan allows, which is
/// what the routing tree itself allows where no filter below a wide node, and no outside
/// test, exchanges the path.
pub open spec fn compiled_detects(
    router: Router,
    w: World,
    course: Course,
    after: World,
) -> bool {
    &&& detects(router, true, w, course, after)
    &&& steady(router) && tame(after.asked) ==> detects(router, false, w, course, after)
}

} // verus!
