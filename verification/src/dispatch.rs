//! Which children of a node a detection has to try.
//!
//! A node with many children that declare a static first segment keeps an index
//! from segments to children. The children that declare none are kept beside it,
//! and the two lists are merged, so that children are still tried in the order in
//! which they were registered.

use vstd::hash_map::StringHashMap;
use vstd::prelude::*;

use crate::filters::Filter;
use crate::conduct::hint_holds;
use crate::path_state::PathState;
use crate::router::Router;
use crate::semantics::{
    admitted, admitted_from, all_from, candidates, first_segment, static_nodes, wide,
    STATIC_INDEX_THRESHOLD,
};

verus! {

/// Indices as integers.
pub open spec fn ints(s: Seq<usize>) -> Seq<int> {
    s.map_values(|i: usize| i as int)
}

/// The indices below `n` of the children that declare `segment`.
pub open spec fn exact_below(children: Seq<Router>, segment: Seq<char>, n: int) -> Seq<int>
    decreases n,
{
    if n <= 0 {
        seq![]
    } else if first_segment(children[n - 1]) == Some(segment) {
        exact_below(children, segment, n - 1).push(n - 1)
    } else {
        exact_below(children, segment, n - 1)
    }
}

/// The indices below `n` of the children that declare no segment.
pub open spec fn generic_below(children: Seq<Router>, n: int) -> Seq<int>
    decreases n,
{
    if n <= 0 {
        seq![]
    } else if first_segment(children[n - 1]) is None {
        generic_below(children, n - 1).push(n - 1)
    } else {
        generic_below(children, n - 1)
    }
}

/// Return a declared exact first-segment discriminator. A mismatch is known to
/// fail before any later filter or path capture can have an observable effect.
pub fn first_static_segment(router: &Router) -> (segment: Option<&str>)
    ensures
        match segment {
            Some(s) => first_segment(*router) == Some(s@),
            None => first_segment(*router) is None,
        },
        router.filters@.len() > 0 ==> hint_holds(router.filters@[0]),
{
    if router.filters.len() == 0 {
        None
    } else {
        router.filters[0].static_path_segment()
    }
}

proof fn lemma_static_nodes_grow(children: Seq<Router>, n: int, m: int)
    requires
        n <= m,
    ensures
        static_nodes(children, n) <= static_nodes(children, m),
    decreases m - n,
{
    if n < m {
        lemma_static_nodes_grow(children, n, m - 1);
    }
}

/// How a node finds the children to try.
pub enum ChildDispatch {
    /// Every child, in order.
    Linear { len: usize },
    /// By the next segment: the children that declare it, and those that declare
    /// none.
    Indexed { exact: StringHashMap<Vec<usize>>, generic: Vec<usize> },
}

/// Whether an index over the first `n` children is complete.
pub open spec fn indexes(
    exact: Map<Seq<char>, Vec<usize>>,
    generic: Seq<usize>,
    children: Seq<Router>,
    n: int,
) -> bool {
    &&& ints(generic) == generic_below(children, n)
    &&& forall|segment: Seq<char>|
        #![trigger exact.contains_key(segment)]
        #![trigger exact_below(children, segment, n)]
        if exact.contains_key(segment) {
            ints(exact[segment]@) == exact_below(children, segment, n) && exact[segment]@.len() > 0
        } else {
            exact_below(children, segment, n).len() == 0
        }
    &&& forall|i: int|
        0 <= i < n && (#[trigger] children[i]).filters@.len() > 0 ==> hint_holds(
            children[i].filters@[0],
        )
}

impl ChildDispatch {
    /// Whether this is the dispatch of the given children.
    pub open spec fn serves(self, children: Seq<Router>) -> bool {
        match self {
            ChildDispatch::Linear { len } => len == children.len() && !wide(children),
            ChildDispatch::Indexed { exact, generic } => wide(children) && indexes(
                exact@,
                generic@,
                children,
                children.len() as int,
            ),
        }
    }

    /// Whether enough children declare a static segment.
    pub fn should_index(children: &Vec<Router>) -> (r: bool)
        ensures
            r == wide(children@),
    {
        let mut count: usize = 0;
        let mut i: usize = 0;
        while i < children.len() && count < STATIC_INDEX_THRESHOLD
            invariant
                i <= children.len(),
                count == static_nodes(children@, i as int),
                count <= STATIC_INDEX_THRESHOLD,
            decreases children.len() - i,
        {
            if first_static_segment(&children[i]).is_some() {
                count = count + 1;
            }
            i = i + 1;
        }
        proof {
            lemma_static_nodes_grow(children@, i as int, children@.len() as int);
        }
        count == STATIC_INDEX_THRESHOLD
    }

    /// Compiles the dispatch of a node's children.
    pub fn compile(children: &Vec<Router>) -> (dispatch: Self)
        ensures
            dispatch.serves(children@),
    {
        if !Self::should_index(children) {
            return ChildDispatch::Linear { len: children.len() };
        }
        let mut exact: StringHashMap<Vec<usize>> = StringHashMap::new();
        let mut generic: Vec<usize> = Vec::new();
        let mut index: usize = 0;
        proof {
            assert(ints(generic@) =~= seq![]);
        }
        while index < children.len()
            invariant
                index <= children.len(),
                indexes(exact@, generic@, children@, index as int),
            decreases children.len() - index,
        {
            let ghost exact_before = exact@;
            let ghost generic_before = generic@;
            match first_static_segment(&children[index]) {
                Some(segment) => {
                    let mut indices = match exact.get(segment) {
                        Some(found) => found.clone(),
                        None => Vec::new(),
                    };
                    let ghost indices_before = indices@;
                    proof {
                        if exact_before.contains_key(segment@) {
                            assert(indices@ =~= exact_before[segment@]@);
                        }
                        assert(ints(indices@) =~= exact_below(children@, segment@, index as int));
                    }
                    indices.push(index);
                    assert(ints(indices@) =~= ints(indices_before).push(index as int));
                    exact.insert(segment.to_owned(), indices);
                },
                None => {
                    generic.push(index);
                    assert(ints(generic@) =~= ints(generic_before).push(index as int));
                },
            }
            index = index + 1;
            assert(indexes(exact@, generic@, children@, index as int)) by {
                assert forall|segment: Seq<char>|
                    #![trigger exact@.contains_key(segment)]
                    #![trigger exact_below(children@, segment, index as int)]
                    if exact@.contains_key(segment) {
                        ints(exact@[segment]@) == exact_below(children@, segment, index as int)
                            && exact@[segment]@.len() > 0
                    } else {
                        exact_below(children@, segment, index as int).len() == 0
                    } by {
                    assert(exact_before.contains_key(segment) || !exact_before.contains_key(
                        segment,
                    ));
                }
            }
        }
        ChildDispatch::Indexed { exact, generic }
    }

    /// The children to try where the path stands.
    pub fn candidates<'a>(&'a self, path_state: &PathState) -> (iter: CandidateIter<'a>)
        ensures
            iter.wf(),
            forall|children: Seq<Router>| #[trigger]
                self.serves(children) ==> iter.remaining() == candidates(
                    children,
                    true,
                    path_state@.pick(),
                ),
    {
        match self {
            ChildDispatch::Linear { len } => CandidateIter::Linear { next: 0, len: *len },
            ChildDispatch::Indexed { exact, generic } => {
                let found = match path_state.pick() {
                    Some(segment) => exact.get(segment),
                    None => None,
                };
                let iter = CandidateIter::Merged {
                    exact: found,
                    generic,
                    exact_pos: 0,
                    generic_pos: 0,
                };
                assert forall|children: Seq<Router>| #[trigger]
                    self.serves(children) implies iter.remaining() == candidates(
                    children,
                    true,
                    path_state@.pick(),
                ) by {
                    let n = children.len() as int;
                    let pick = path_state@.pick();
                    lemma_merged_is_admitted(children, pick, n);
                    assert(admitted_from(children, pick, n) =~= seq![]);
                    assert(merge(picked_below(children, pick, n), generic_below(children, n))
                        =~= admitted_from(children, pick, 0));
                    assert(ints(iter.exact_indices()).skip(0) =~= picked_below(children, pick, n));
                    assert(ints(generic@).skip(0) =~= generic_below(children, n));
                }
                iter
            },
        }
    }
}

/// The children to try that are left.
pub enum CandidateIter<'a> {
    Linear { next: usize, len: usize },
    Merged {
        exact: Option<&'a Vec<usize>>,
        generic: &'a Vec<usize>,
        exact_pos: usize,
        generic_pos: usize,
    },
}

/// Two ascending sequences as one.
pub open spec fn merge(a: Seq<int>, b: Seq<int>) -> Seq<int>
    decreases a.len() + b.len(),
{
    if a.len() == 0 {
        b
    } else if b.len() == 0 {
        a
    } else if a[0] < b[0] {
        seq![a[0]] + merge(a.drop_first(), b)
    } else {
        seq![b[0]] + merge(a, b.drop_first())
    }
}

/// Whether every element is below `n`.
spec fn bounded(s: Seq<int>, n: int) -> bool {
    forall|i: int| 0 <= i < s.len() ==> #[trigger] s[i] < n
}

proof fn lemma_merge_push(a: Seq<int>, b: Seq<int>, x: int)
    requires
        bounded(a, x),
        bounded(b, x),
    ensures
        merge(a.push(x), b) == merge(a, b).push(x),
        merge(a, b.push(x)) == merge(a, b).push(x),
    decreases a.len() + b.len(),
{
    if a.len() == 0 && b.len() == 0 {
        assert(merge(a.push(x), b) =~= merge(a, b).push(x));
        assert(merge(a, b.push(x)) =~= merge(a, b).push(x));
    } else if a.len() == 0 {
        lemma_merge_push(a, b.drop_first(), x);
        assert(merge(a.push(x), b) =~= seq![b[0]] + merge(a.push(x), b.drop_first()));
        assert(merge(a.push(x), b) =~= merge(a, b).push(x));
        assert(merge(a, b.push(x)) =~= merge(a, b).push(x));
    } else if b.len() == 0 {
        lemma_merge_push(a.drop_first(), b, x);
        assert(merge(a, b.push(x)) =~= seq![a[0]] + merge(a.drop_first(), b.push(x)));
        assert(merge(a, b.push(x)) =~= merge(a, b).push(x));
        assert(merge(a.push(x), b) =~= merge(a, b).push(x));
    } else if a[0] < b[0] {
        lemma_merge_push(a.drop_first(), b, x);
        assert(a.push(x).drop_first() =~= a.drop_first().push(x));
        assert(merge(a.push(x), b) =~= merge(a, b).push(x));
        assert(merge(a, b.push(x)) =~= merge(a, b).push(x));
    } else {
        lemma_merge_push(a, b.drop_first(), x);
        assert(b.push(x).drop_first() =~= b.drop_first().push(x));
        assert(merge(a.push(x), b) =~= merge(a, b).push(x));
        assert(merge(a, b.push(x)) =~= merge(a, b).push(x));
    }
}

/// The indices below `n` of the children that declare the segment `pick`.
spec fn picked_below(children: Seq<Router>, pick: Option<Seq<char>>, n: int) -> Seq<int> {
    match pick {
        Some(segment) => exact_below(children, segment, n),
        None => seq![],
    }
}

proof fn lemma_below_bounded(children: Seq<Router>, pick: Option<Seq<char>>, n: int)
    requires
        0 <= n,
    ensures
        bounded(picked_below(children, pick, n), n),
        bounded(generic_below(children, n), n),
    decreases n,
{
    if n > 0 {
        lemma_below_bounded(children, pick, n - 1);
    }
}

proof fn lemma_merged_is_admitted(children: Seq<Router>, pick: Option<Seq<char>>, n: int)
    requires
        0 <= n <= children.len(),
    ensures
        merge(picked_below(children, pick, n), generic_below(children, n)) + admitted_from(
            children,
            pick,
            n,
        ) == admitted_from(children, pick, 0),
    decreases n,
{
    let a = picked_below(children, pick, n);
    let b = generic_below(children, n);
    if n == 0 {
        assert(a =~= seq![] && b =~= seq![]);
        assert(merge(a, b) + admitted_from(children, pick, 0) =~= admitted_from(children, pick, 0));
    } else {
        let a0 = picked_below(children, pick, n - 1);
        let b0 = generic_below(children, n - 1);
        lemma_merged_is_admitted(children, pick, n - 1);
        lemma_below_bounded(children, pick, n - 1);
        lemma_merge_push(a0, b0, n - 1);
        if admitted(children[n - 1], pick) {
            assert(merge(a, b) == merge(a0, b0).push(n - 1));
            assert(merge(a0, b0).push(n - 1) + admitted_from(children, pick, n) =~= merge(a0, b0)
                + (seq![n - 1] + admitted_from(children, pick, n)));
        } else {
            assert(a == a0 && b == b0);
        }
    }
}

impl<'a> CandidateIter<'a> {
    /// The children that declare the next segment.
    pub open spec fn exact_indices(self) -> Seq<usize> {
        match self {
            CandidateIter::Merged { exact: Some(indices), .. } => indices@,
            _ => seq![],
        }
    }

    /// Whether the positions lie inside the lists.
    pub open spec fn wf(self) -> bool {
        match self {
            CandidateIter::Linear { next, len } => next <= len,
            CandidateIter::Merged { generic, exact_pos, generic_pos, .. } => exact_pos
                <= self.exact_indices().len() && generic_pos <= generic@.len(),
        }
    }

    /// The candidates that are left, in order.
    pub open spec fn remaining(self) -> Seq<int> {
        match self {
            CandidateIter::Linear { next, len } => all_from(len as int, next as int),
            CandidateIter::Merged { generic, exact_pos, generic_pos, .. } => merge(
                ints(self.exact_indices()).skip(exact_pos as int),
                ints(generic@).skip(generic_pos as int),
            ),
        }
    }

    /// All children of a node with `len` of them.
    pub fn all(len: usize) -> (iter: Self)
        ensures
            iter.wf(),
            iter.remaining() == all_from(len as int, 0),
    {
        CandidateIter::Linear { next: 0, len }
    }

    /// Whether `after` is this iterator moved on over the candidate `c`: one position is
    /// one further, and all else is the same.
    pub open spec fn moved_on(self, after: Self, c: usize) -> bool {
        match (self, after) {
            (
                CandidateIter::Linear { next, len },
                CandidateIter::Linear { next: next2, len: len2 },
            ) => c == next && next2 == next + 1 && len2 == len,
            (
                CandidateIter::Merged { exact, generic, exact_pos, generic_pos },
                CandidateIter::Merged {
                    exact: exact2,
                    generic: generic2,
                    exact_pos: exact_pos2,
                    generic_pos: generic_pos2,
                },
            ) => {
                &&& exact2 == exact
                &&& generic2 == generic
                &&& ({
                    ||| exact_pos2 == exact_pos + 1 && generic_pos2 == generic_pos && exact_pos
                        < self.exact_indices().len() && c == self.exact_indices()[exact_pos as int]
                    ||| exact_pos2 == exact_pos && generic_pos2 == generic_pos + 1 && generic_pos
                        < generic@.len() && c == generic@[generic_pos as int]
                })
            },
            _ => false,
        }
    }

    /// Whether the positions are at the ends of the lists.
    pub open spec fn at_end(self) -> bool {
        match self {
            CandidateIter::Linear { next, len } => next >= len,
            CandidateIter::Merged { generic, exact_pos, generic_pos, .. } => exact_pos
                >= self.exact_indices().len() && generic_pos >= generic@.len(),
        }
    }

    /// Takes the next candidate.
    pub fn next(&mut self) -> (candidate: Option<usize>)
        requires
            old(self).wf(),
        ensures
            final(self).wf(),
            candidate is None <==> old(self).at_end(),
            match candidate {
                Some(c) => old(self).moved_on(*final(self), c),
                None => *final(self) == *old(self),
            },
            match candidate {
                Some(c) => old(self).remaining().len() > 0 && c == old(self).remaining()[0]
                    && final(self).remaining() == old(self).remaining().drop_first(),
                None => old(self).remaining().len() == 0 && final(self).remaining() == old(
                    self,
                ).remaining(),
            },
    {
        let ghost before = *self;
        let candidate = match self {
            CandidateIter::Linear { next, len } => {
                if *next < *len {
                    let value = *next;
                    *next = value + 1;
                    Some(value)
                } else {
                    None
                }
            },
            CandidateIter::Merged { exact, generic, exact_pos, generic_pos } => {
                let from_exact = match exact {
                    Some(indices) => if *exact_pos < indices.len() {
                        Some(indices[*exact_pos])
                    } else {
                        None
                    },
                    None => None,
                };
                let from_generic = if *generic_pos < generic.len() {
                    Some(generic[*generic_pos])
                } else {
                    None
                };
                match (from_exact, from_generic) {
                    (Some(e), Some(g)) => {
                        if e < g {
                            *exact_pos = *exact_pos + 1;
                            Some(e)
                        } else {
                            *generic_pos = *generic_pos + 1;
                            Some(g)
                        }
                    },
                    (Some(e), None) => {
                        *exact_pos = *exact_pos + 1;
                        Some(e)
                    },
                    (None, Some(g)) => {
                        *generic_pos = *generic_pos + 1;
                        Some(g)
                    },
                    (None, None) => None,
                }
            },
        };
        proof {
            if candidate is Some {
                if let CandidateIter::Merged { generic, exact_pos, generic_pos, .. } = before {
                    let exact = ints(before.exact_indices());
                    let other = ints(generic@);
                    if exact_pos < exact.len() {
                        assert(exact.skip(exact_pos as int).drop_first() =~= exact.skip(
                            exact_pos + 1,
                        ));
                    }
                    if generic_pos < other.len() {
                        assert(other.skip(generic_pos as int).drop_first() =~= other.skip(
                            generic_pos + 1,
                        ));
                    }
                }
                assert(self.remaining() =~= before.remaining().drop_first());
            }
        }
        candidate
    }
}

} // verus!
