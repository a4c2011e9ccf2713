//! Compilation of a routing tree into a plan for detection.

use vstd::prelude::*;

use crate::conduct::hints_hold;
use crate::dispatch::ChildDispatch;
use crate::filter_plan::FilterExecPlan;
use crate::router::Router;
use crate::semantics::wide;

verus! {

/// The plan of one node: how to evaluate its filters, and which of its children to
/// try.
pub struct CompiledNode {
    pub filters: FilterExecPlan,
    pub children: Vec<CompiledNode>,
    pub dispatch: ChildDispatch,
}

impl CompiledNode {
    /// Whether this is the plan of the given routing tree.
    pub open spec fn plans(self, router: Router) -> bool
        decreases router,
    {
        &&& self.filters.suits(router.filters@)
        &&& self.dispatch.serves(router.routers@)
        &&& self.children@.len() == router.routers@.len()
        &&& forall|i: int|
            0 <= i < router.routers@.len() ==> (#[trigger] self.children@[i]).plans(
                router.routers@[i],
            )
    }

    /// Compiles the plan of a routing tree.
    pub fn compile(router: &Router) -> (node: Self)
        ensures
            node.plans(*router),
        decreases *router,
    {
        let filters = FilterExecPlan::compile(&router.filters);
        let dispatch = ChildDispatch::compile(&router.routers);
        let mut children: Vec<CompiledNode> = Vec::new();
        let mut i: usize = 0;
        while i < router.routers.len()
            invariant
                i <= router.routers.len(),
                children.len() == i,
                forall|j: int|
                    0 <= j < i ==> (#[trigger] children@[j]).plans(router.routers@[j]),
            decreases router.routers.len() - i,
        {
            assert(decreases_to!(*router => router.routers@[i as int]));
            children.push(Self::compile(&router.routers[i]));
            i = i + 1;
        }
        CompiledNode { filters, children, dispatch }
    }

    /// Whether some node of the tree is wide enough to be indexed.
    pub fn contains_index(router: &Router) -> (r: bool)
        ensures
            r == has_wide(*router),
        decreases *router,
    {
        if ChildDispatch::should_index(&router.routers) {
            return true;
        }
        let mut i: usize = 0;
        while i < router.routers.len()
            invariant
                i <= router.routers.len(),
                forall|j: int| 0 <= j < i ==> !has_wide(#[trigger] router.routers@[j]),
            decreases router.routers.len() - i,
        {
            assert(decreases_to!(*router => router.routers@[i as int]));
            if Self::contains_index(&router.routers[i]) {
                return true;
            }
            i = i + 1;
        }
        false
    }
}

/// Whether some node of the tree is wide enough to be indexed.
pub open spec fn has_wide(router: Router) -> bool
    decreases router,
{
    wide(router.routers@) || exists|i: int|
        0 <= i < router.routers@.len() && has_wide(#[trigger] router.routers@[i])
}

/// The hints that a plan goes by can be relied on.
pub proof fn lemma_plan_hints(node: CompiledNode, router: Router)
    requires
        node.plans(router),
    ensures
        hints_hold(router),
    decreases router,
{
    assert forall|i: int| 0 <= i < router.routers@.len() implies hints_hold(
        #[trigger] router.routers@[i],
    ) by {
        assert(node.children@[i].plans(router.routers@[i]));
        lemma_plan_hints(node.children@[i], router.routers@[i]);
    }
}

} // verus!
