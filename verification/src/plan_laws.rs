//! What holds of every compiled plan.

use vstd::prelude::*;

use crate::dispatch::{exact_below, generic_below, ints, ChildDispatch};
use crate::filter_plan::{bit, FilterExecPlan};
use crate::filters::{Filter, FilterBox};
use crate::oapi_laws::{leads_down, router_at};
use crate::plan::{has_wide, CompiledNode};
use crate::router::Router;
use crate::semantics::{first_segment, static_nodes, wide};

verus! {

/// Whether a list is strictly ascending.
pub open spec fn rising(list: Seq<usize>) -> bool {
    forall|i: int, j: int| 0 <= i < j < list.len() ==> #[trigger] list[i] < #[trigger] list[j]
}

proof fn lemma_exact_below(children: Seq<Router>, segment: Seq<char>, n: int)
    requires
        0 <= n <= children.len(),
    ensures
        forall|i: int, j: int|
            0 <= i < j < exact_below(children, segment, n).len() ==> #[trigger] exact_below(
                children,
                segment,
                n,
            )[i] < #[trigger] exact_below(children, segment, n)[j],
        forall|c: int| #[trigger]
            exact_below(children, segment, n).contains(c) <==> 0 <= c < n && first_segment(
                children[c],
            ) == Some(segment),
    decreases n,
{
    if n > 0 {
        lemma_exact_below(children, segment, n - 1);
        let before = exact_below(children, segment, n - 1);
        let list = exact_below(children, segment, n);
        lemma_one_more(before, list, n - 1, first_segment(children[n - 1]) == Some(segment));
    }
}

proof fn lemma_generic_below(children: Seq<Router>, n: int)
    requires
        0 <= n <= children.len(),
    ensures
        forall|i: int, j: int|
            0 <= i < j < generic_below(children, n).len() ==> #[trigger] generic_below(
                children,
                n,
            )[i] < #[trigger] generic_below(children, n)[j],
        forall|c: int| #[trigger]
            generic_below(children, n).contains(c) <==> 0 <= c < n && first_segment(
                children[c],
            ) is None,
    decreases n,
{
    if n > 0 {
        lemma_generic_below(children, n - 1);
        let before = generic_below(children, n - 1);
        let list = generic_below(children, n);
        lemma_one_more(before, list, n - 1, first_segment(children[n - 1]) is None);
    }
}

/// A list of numbers below `last`, ascending, with `last` behind them where `more`.
proof fn lemma_one_more(before: Seq<int>, list: Seq<int>, last: int, more: bool)
    requires
        list == (if more {
            before.push(last)
        } else {
            before
        }),
        forall|c: int| #[trigger] before.contains(c) ==> c < last,
        forall|i: int, j: int|
            0 <= i < j < before.len() ==> #[trigger] before[i] < #[trigger] before[j],
    ensures
        forall|i: int, j: int| 0 <= i < j < list.len() ==> #[trigger] list[i] < #[trigger] list[j],
        forall|c: int| #[trigger] list.contains(c) <==> before.contains(c) || (more && c == last),
{
    if more {
        assert forall|c: int| #[trigger] list.contains(c) <==> before.contains(c) || c == last by {
            if before.contains(c) {
                let k = choose|k: int| 0 <= k < before.len() && before[k] == c;
                assert(list[k] == c);
            }
            assert(list[before.len() as int] == last);
            if list.contains(c) && c != last {
                let k = choose|k: int| 0 <= k < list.len() && list[k] == c;
                assert(before[k] == c);
            }
        }
        assert forall|i: int, j: int| 0 <= i < j < list.len() implies #[trigger] list[i]
            < #[trigger] list[j] by {
            assert(before.contains(before[i]));
        }
    }
}

proof fn lemma_as_ints(list: Seq<usize>)
    ensures
        (forall|i: int, j: int|
            0 <= i < j < list.len() ==> #[trigger] ints(list)[i] < #[trigger] ints(list)[j])
            ==> rising(list),
        forall|c: usize| #[trigger] list.contains(c) <==> ints(list).contains(c as int),
{
    assert forall|c: usize| #[trigger] list.contains(c) <==> ints(list).contains(c as int) by {
        if list.contains(c) {
            let k = choose|k: int| 0 <= k < list.len() && list[k] == c;
            assert(ints(list)[k] == c as int);
        }
        if ints(list).contains(c as int) {
            let k = choose|k: int| 0 <= k < ints(list).len() && ints(list)[k] == c as int;
            assert(list[k] == c);
        }
    }
    if forall|i: int, j: int|
        0 <= i < j < list.len() ==> #[trigger] ints(list)[i] < #[trigger] ints(list)[j] {
        assert forall|i: int, j: int| 0 <= i < j < list.len() implies #[trigger] list[i]
            < #[trigger] list[j] by {
            assert(ints(list)[i] < ints(list)[j]);
        }
    }
}

/// A node is indexed where it is wide, and only there. Its index has a list for exactly
/// the segments that some child declares, and each list holds exactly the children that
/// declare its segment, in order. The children that declare none are in a list of their
/// own, in order.
pub proof fn index_is_exact(dispatch: ChildDispatch, children: Seq<Router>)
    requires
        dispatch.serves(children),
    ensures
        match dispatch {
            ChildDispatch::Linear { len } => !wide(children) && len == children.len(),
            ChildDispatch::Indexed { exact, generic } => {
                &&& wide(children)
                &&& rising(generic@)
                &&& forall|c: usize| #[trigger]
                    generic@.contains(c) <==> c < children.len() && first_segment(
                        children[c as int],
                    ) is None
                &&& forall|segment: Seq<char>| #[trigger]
                    exact@.contains_key(segment) <==> exists|i: int|
                        0 <= i < children.len() && first_segment(#[trigger] children[i]) == Some(
                            segment,
                        )
                &&& forall|segment: Seq<char>| #[trigger]
                    exact@.contains_key(segment) ==> rising(exact@[segment]@) && forall|c: usize|
                     #[trigger]
                        exact@[segment]@.contains(c) <==> c < children.len() && first_segment(
                            children[c as int],
                        ) == Some(segment)
            },
        },
{
    if let ChildDispatch::Indexed { exact, generic } = dispatch {
        let n = children.len() as int;
        lemma_generic_below(children, n);
        lemma_as_ints(generic@);
        assert forall|segment: Seq<char>| #[trigger] exact@.contains_key(segment) <==> exists|
            i: int,
        |
            0 <= i < children.len() && first_segment(#[trigger] children[i]) == Some(segment) by {
            lemma_exact_below(children, segment, n);
            let list = exact_below(children, segment, n);
            if exact@.contains_key(segment) {
                assert(ints(exact@[segment]@).len() > 0);
                assert(list.contains(list[0]));
                assert(first_segment(children[list[0]]) == Some(segment));
            }
            if exists|i: int|
                0 <= i < children.len() && first_segment(#[trigger] children[i]) == Some(segment) {
                let i = choose|i: int|
                    0 <= i < children.len() && first_segment(#[trigger] children[i]) == Some(
                        segment,
                    );
                assert(list.contains(i));
            }
        }
        assert forall|segment: Seq<char>| #[trigger] exact@.contains_key(segment) implies rising(
            exact@[segment]@,
        ) && forall|c: usize| #[trigger]
            exact@[segment]@.contains(c) <==> c < children.len() && first_segment(
                children[c as int],
            ) == Some(segment) by {
            lemma_exact_below(children, segment, n);
            lemma_as_ints(exact@[segment]@);
        }
    }
}

/// Whether two dispatches hold the same.
pub open spec fn same_dispatch(a: ChildDispatch, b: ChildDispatch) -> bool {
    match (a, b) {
        (ChildDispatch::Linear { len }, ChildDispatch::Linear { len: len2 }) => len == len2,
        (
            ChildDispatch::Indexed { exact, generic },
            ChildDispatch::Indexed { exact: exact2, generic: generic2 },
        ) => {
            &&& generic@ == generic2@
            &&& forall|segment: Seq<char>|
                #![trigger exact@.contains_key(segment)]
                #![trigger exact2@.contains_key(segment)]
                exact@.contains_key(segment) == exact2@.contains_key(segment) && (
                exact@.contains_key(segment) ==> exact@[segment]@ == exact2@[segment]@)
        },
        _ => false,
    }
}

/// Whether two plans hold the same at every depth.
pub open spec fn same_plan(a: CompiledNode, b: CompiledNode) -> bool
    decreases a,
{
    &&& a.filters == b.filters
    &&& same_dispatch(a.dispatch, b.dispatch)
    &&& a.children@.len() == b.children@.len()
    &&& forall|i: int|
        0 <= i < a.children@.len() ==> same_plan(#[trigger] a.children@[i], b.children@[i])
}

proof fn lemma_same_ints(a: Seq<usize>, b: Seq<usize>)
    requires
        ints(a) == ints(b),
    ensures
        a == b,
{
    assert(ints(a).len() == a.len() && ints(b).len() == b.len());
    assert forall|i: int| 0 <= i < a.len() implies a[i] == b[i] by {
        assert(ints(a)[i] == a[i] as int);
        assert(ints(b)[i] == b[i] as int);
    }
    assert(a =~= b);
}

proof fn lemma_same_bits(a: u64, b: u64, k: u64)
    requires
        k < 64,
        forall|i: u64| i < 64 ==> #[trigger] bit(a, i) == bit(b, i),
    ensures
        a >> k == b >> k,
    decreases 64 - k,
{
    assert(bit(a, k) == bit(b, k));
    if k == 63 {
        assert(a >> 63 == b >> 63) by (bit_vector)
            requires
                (a & (1u64 << 63) != 0) == (b & (1u64 << 63) != 0),
        ;
    } else {
        lemma_same_bits(a, b, (k + 1) as u64);
        let next = (k + 1) as u64;
        assert(a >> k == b >> k) by (bit_vector)
            requires
                k < 63,
                next == k + 1,
                a >> next == b >> next,
                (a & (1u64 << k) != 0) == (b & (1u64 << k) != 0),
        ;
    }
}

/// The filters of a node have one classification.
pub proof fn classification_is_unique(a: FilterExecPlan, b: FilterExecPlan, filters: Seq<FilterBox>)
    requires
        a.suits(filters),
        b.suits(filters),
    ensures
        a == b,
{
    assert forall|i: u64| i < 64 implies #[trigger] bit(a.sync_mask, i) == bit(b.sync_mask, i) by {
        if i < filters.len() {
            let at = i as int;
            assert(at as u64 == i);
            assert(bit(a.sync_mask, at as u64) == filters[at].sync());
            assert(bit(b.sync_mask, at as u64) == filters[at].sync());
        } else {
            assert(!bit(a.sync_mask, i));
            assert(!bit(b.sync_mask, i));
        }
    }
    lemma_same_bits(a.sync_mask, b.sync_mask, 0);
    let x = a.sync_mask;
    let y = b.sync_mask;
    assert(x >> 0 == x) by (bit_vector);
    assert(y >> 0 == y) by (bit_vector);
}

/// The children of a node have one dispatch.
pub proof fn dispatch_is_unique(a: ChildDispatch, b: ChildDispatch, children: Seq<Router>)
    requires
        a.serves(children),
        b.serves(children),
    ensures
        same_dispatch(a, b),
{
    match (a, b) {
        (
            ChildDispatch::Indexed { exact, generic },
            ChildDispatch::Indexed { exact: exact2, generic: generic2 },
        ) => {
            lemma_same_ints(generic@, generic2@);
            assert forall|segment: Seq<char>|
                #![trigger exact@.contains_key(segment)]
                #![trigger exact2@.contains_key(segment)]
                exact@.contains_key(segment) == exact2@.contains_key(segment) && (
                exact@.contains_key(segment) ==> exact@[segment]@ == exact2@[segment]@) by {
                assert(exact@.contains_key(segment) ==> ints(exact@[segment]@).len() > 0);
                assert(exact2@.contains_key(segment) ==> ints(exact2@[segment]@).len() > 0);
                if exact@.contains_key(segment) {
                    lemma_same_ints(exact@[segment]@, exact2@[segment]@);
                }
            }
        },
        _ => {},
    }
}

/// A routing tree has one plan.
pub proof fn plan_is_unique(a: CompiledNode, b: CompiledNode, router: Router)
    requires
        a.plans(router),
        b.plans(router),
    ensures
        same_plan(a, b),
    decreases router,
{
    classification_is_unique(a.filters, b.filters, router.filters@);
    dispatch_is_unique(a.dispatch, b.dispatch, router.routers@);
    assert forall|i: int| 0 <= i < a.children@.len() implies same_plan(
        #[trigger] a.children@[i],
        b.children@[i],
    ) by {
        assert(b.children@[i].plans(router.routers@[i]));
        plan_is_unique(a.children@[i], b.children@[i], router.routers@[i]);
    }
}

/// A plan mirrors its tree: it has a plan for each child of the tree, and that plan is
/// what compiling the child gives.
pub proof fn plan_mirrors_the_tree(
    plan: CompiledNode,
    router: Router,
    i: int,
    child_plan: CompiledNode,
)
    requires
        plan.plans(router),
        0 <= i < router.routers@.len(),
        child_plan.plans(router.routers@[i]),
    ensures
        plan.children@.len() == router.routers@.len(),
        same_plan(plan.children@[i], child_plan),
{
    assert(plan.children@[i].plans(router.routers@[i]));
    plan_is_unique(plan.children@[i], child_plan, router.routers@[i]);
}

/// Every index that a plan dispatches to is that of a child.
pub proof fn dispatch_is_in_range(plan: CompiledNode, router: Router, c: usize)
    requires
        plan.plans(router),
    ensures
        match plan.dispatch {
            ChildDispatch::Linear { len } => len == plan.children@.len(),
            ChildDispatch::Indexed { exact, generic } => {
                &&& generic@.contains(c) ==> c < plan.children@.len()
                &&& forall|segment: Seq<char>| #[trigger]
                    exact@.contains_key(segment) && exact@[segment]@.contains(c) ==> c
                        < plan.children@.len()
            },
        },
{
    index_is_exact(plan.dispatch, router.routers@);
}

/// The static segment of a node is that of its first filter, and it has none where it has no
/// filters.
pub proof fn first_filter_declares_the_segment(router: Router)
    ensures
        router.filters@.len() == 0 ==> first_segment(router) is None,
        router.filters@.len() > 0 ==> first_segment(router) == router.filters@[0].segment(),
{
}

/// A list of children is indexed where at least eight of them declare a static segment.
pub proof fn eight_static_children_are_wide(children: Seq<Router>)
    ensures
        wide(children) <==> children.filter(|c: Router| first_segment(c) is Some).len() >= 8,
{
    lemma_static_count(children, children.len() as int);
    assert(children.take(children.len() as int) =~= children);
}

proof fn lemma_static_count(children: Seq<Router>, n: int)
    requires
        0 <= n <= children.len(),
    ensures
        static_nodes(children, n) == children.take(n).filter(
            |c: Router| first_segment(c) is Some,
        ).len(),
    decreases n,
{
    reveal(Seq::filter);
    let has = |c: Router| first_segment(c) is Some;
    if n > 0 {
        lemma_static_count(children, n - 1);
        let upto = children.take(n);
        assert(upto.drop_last() =~= children.take(n - 1));
        assert(upto.last() == children[n - 1]);
        assert(upto.filter(has).len() == static_nodes(children, n));
    } else {
        assert(children.take(0).filter(has).len() == 0);
    }
}

/// A plan uses an index where some node of the tree, the root among them, has a list of children
/// that is wide.
pub proof fn index_is_used_where_some_node_is_wide(router: Router)
    ensures
        has_wide(router) <==> exists|steps: Seq<int>| #[trigger]
            leads_down(router, steps) && wide(router_at(router, steps).routers@),
    decreases router,
{
    if has_wide(router) {
        if wide(router.routers@) {
            let here = Seq::<int>::empty();
            assert(leads_down(router, here));
        } else {
            let i = choose|i: int|
                0 <= i < router.routers@.len() && has_wide(#[trigger] router.routers@[i]);
            index_is_used_where_some_node_is_wide(router.routers@[i]);
            let steps = choose|steps: Seq<int>| #[trigger]
                leads_down(router.routers@[i], steps) && wide(
                    router_at(router.routers@[i], steps).routers@,
                );
            let longer = seq![i] + steps;
            assert(longer.drop_first() =~= steps);
            assert(leads_down(router, longer));
        }
    }
    if exists|steps: Seq<int>| #[trigger]
        leads_down(router, steps) && wide(router_at(router, steps).routers@) {
        let steps = choose|steps: Seq<int>| #[trigger]
            leads_down(router, steps) && wide(router_at(router, steps).routers@);
        if steps.len() > 0 {
            let child = router.routers@[steps[0]];
            assert(leads_down(child, steps.drop_first()));
            index_is_used_where_some_node_is_wide(child);
        }
    }
}

/// In the plan of a node's filters, the bit of each of the first 64 filters is set where the
/// filter never waits, and no other bit is.
pub proof fn mask_has_the_bits_of_filters_that_never_wait(
    plan: FilterExecPlan,
    filters: Seq<FilterBox>,
    i: u64,
)
    requires
        plan.suits(filters),
        i < 64,
    ensures
        (plan.sync_mask & (1u64 << i) != 0) <==> i < filters.len() && filters[i as int].sync(),
{
    if i < filters.len() {
        let at = i as int;
        assert(at as u64 == i);
        assert(bit(plan.sync_mask, at as u64) == filters[at].sync());
    } else {
        assert(!bit(plan.sync_mask, i));
    }
}

} // verus!
