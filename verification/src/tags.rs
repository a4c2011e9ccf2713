//! Sets of tags, in order.

use vstd::prelude::*;

use crate::text::{chars_of, copy_strings, texts};

verus! {

/// Whether one text comes before another in the order of their characters.
pub open spec fn precedes(a: Seq<char>, b: Seq<char>) -> bool
    decreases a.len(),
{
    if b.len() == 0 {
        false
    } else if a.len() == 0 {
        true
    } else if a[0] != b[0] {
        a[0] < b[0]
    } else {
        precedes(a.skip(1), b.skip(1))
    }
}

/// Whether each text comes before the next ones.
pub open spec fn ascending(list: Seq<Seq<char>>) -> bool {
    forall|i: int, j: int|
        0 <= i < j < list.len() ==> precedes(#[trigger] list[i], #[trigger] list[j])
}

/// No text comes before itself.
pub proof fn precedes_is_irreflexive(a: Seq<char>)
    ensures
        !precedes(a, a),
    decreases a.len(),
{
    if a.len() > 0 {
        precedes_is_irreflexive(a.skip(1));
    }
}

/// A text that comes before a second one that comes before a third comes before the
/// third.
pub proof fn precedes_is_transitive(a: Seq<char>, b: Seq<char>, c: Seq<char>)
    requires
        precedes(a, b),
        precedes(b, c),
    ensures
        precedes(a, c),
    decreases a.len(),
{
    if a.len() > 0 && a[0] == b[0] && b[0] == c[0] {
        precedes_is_transitive(a.skip(1), b.skip(1), c.skip(1));
    }
}

/// Of two different texts one comes before the other.
pub proof fn precedes_is_total(a: Seq<char>, b: Seq<char>)
    ensures
        a == b || precedes(a, b) || precedes(b, a),
    decreases a.len(),
{
    if a.len() == 0 || b.len() == 0 {
        if a.len() == b.len() {
            assert(a =~= b);
        }
    } else if a[0] == b[0] {
        precedes_is_total(a.skip(1), b.skip(1));
        if a.skip(1) == b.skip(1) {
            assert(a =~= seq![a[0]] + a.skip(1));
            assert(b =~= seq![b[0]] + b.skip(1));
        }
    }
}

/// Texts are ordered as in a dictionary: the one that the other starts with comes first, and
/// where both go on after the same start, the one whose next character is the lower one.
pub proof fn precedes_is_the_order_of_a_dictionary(a: Seq<char>, b: Seq<char>)
    ensures
        precedes(a, b) <==> exists|n: int|
            0 <= n <= a.len() && n < b.len() && #[trigger] a.take(n) == b.take(n) && (n == a.len()
                || a[n] < b[n]),
    decreases a.len(),
{
    if a.len() == 0 && b.len() > 0 {
        assert(a.take(0) =~= b.take(0));
    } else if a.len() > 0 && b.len() > 0 {
        let x = a.skip(1);
        let y = b.skip(1);
        precedes_is_the_order_of_a_dictionary(x, y);
        if a[0] < b[0] {
            assert(a.take(0) =~= b.take(0));
        }
        if a[0] == b[0] && precedes(x, y) {
            let n = choose|n: int|
                0 <= n <= x.len() && n < y.len() && #[trigger] x.take(n) == y.take(n) && (n
                    == x.len() || x[n] < y[n]);
            assert(a.take(n + 1) =~= seq![a[0]] + x.take(n));
            assert(b.take(n + 1) =~= seq![b[0]] + y.take(n));
            assert(a.take(n + 1) == b.take(n + 1));
        }
        if exists|n: int|
            0 <= n <= a.len() && n < b.len() && #[trigger] a.take(n) == b.take(n) && (n == a.len()
                || a[n] < b[n]) {
            let n = choose|n: int|
                0 <= n <= a.len() && n < b.len() && #[trigger] a.take(n) == b.take(n) && (n
                    == a.len() || a[n] < b[n]);
            if n > 0 {
                assert(a.take(n)[0] == a[0]);
                assert(b.take(n)[0] == b[0]);
                assert(x.take(n - 1) =~= a.take(n).skip(1));
                assert(y.take(n - 1) =~= b.take(n).skip(1));
                assert(x.take(n - 1) == y.take(n - 1));
            }
        }
    }
}

/// Two ascending lists of the same texts are the same list.
pub proof fn ascending_list_is_unique(a: Seq<Seq<char>>, b: Seq<Seq<char>>)
    requires
        ascending(a),
        ascending(b),
        a.to_set() == b.to_set(),
    ensures
        a == b,
    decreases a.len(),
{
    if a.len() == 0 {
        if b.len() > 0 {
            assert(b.to_set().contains(b[0]));
            assert(a.contains(b[0]));
        }
        assert(a =~= b);
    } else {
        assert(a.to_set().contains(a.last()));
        assert(b.contains(a.last()));
        assert(b.to_set().contains(b.last()));
        assert(a.contains(b.last()));
        let i = choose|i: int| 0 <= i < b.len() && b[i] == a.last();
        let j = choose|j: int| 0 <= j < a.len() && a[j] == b.last();
        if i < b.len() - 1 && j < a.len() - 1 {
            precedes_is_transitive(a.last(), b.last(), a.last());
            precedes_is_irreflexive(a.last());
        }
        assert(a.last() == b.last());
        let last = a.last();
        assert forall|t: Seq<char>| #[trigger]
            a.drop_last().to_set().contains(t) <==> b.drop_last().to_set().contains(t) by {
            if a.drop_last().contains(t) {
                let k = choose|k: int| 0 <= k < a.drop_last().len() && a.drop_last()[k] == t;
                assert(a[k] == t);
                assert(a.contains(t));
                assert(b.to_set().contains(t));
                let l = choose|l: int| 0 <= l < b.len() && b[l] == t;
                precedes_is_irreflexive(last);
                assert(precedes(a[k], a.last()));
                assert(l < b.len() - 1);
                assert(b.drop_last()[l] == t);
            }
            if b.drop_last().contains(t) {
                let k = choose|k: int| 0 <= k < b.drop_last().len() && b.drop_last()[k] == t;
                assert(b[k] == t);
                assert(b.contains(t));
                assert(a.to_set().contains(t));
                let l = choose|l: int| 0 <= l < a.len() && a[l] == t;
                precedes_is_irreflexive(last);
                assert(precedes(b[k], b.last()));
                assert(l < a.len() - 1);
                assert(a.drop_last()[l] == t);
            }
        }
        assert(a.drop_last().to_set() =~= b.drop_last().to_set());
        ascending_list_is_unique(a.drop_last(), b.drop_last());
        assert(a =~= a.drop_last().push(last));
        assert(b =~= b.drop_last().push(last));
    }
}

/// Compares two texts by their characters.
fn comes_before(a: &str, b: &str) -> (r: bool)
    ensures
        r == precedes(a@, b@),
{
    let left = chars_of(a);
    let right = chars_of(b);
    let mut i: usize = 0;
    proof {
        assert(a@.skip(0) =~= a@);
        assert(b@.skip(0) =~= b@);
    }
    while i < left.len() && i < right.len()
        invariant
            left@ == a@,
            right@ == b@,
            i <= left.len(),
            i <= right.len(),
            precedes(a@, b@) == precedes(a@.skip(i as int), b@.skip(i as int)),
        decreases left.len() - i,
    {
        if left[i] != right[i] {
            return left[i] < right[i];
        }
        proof {
            assert(a@.skip(i as int).skip(1) =~= a@.skip(i + 1));
            assert(b@.skip(i as int).skip(1) =~= b@.skip(i + 1));
        }
        i = i + 1;
    }
    i < right.len()
}

/// A set of tags. It lists its tags in ascending order.
#[derive(Debug, PartialEq, Eq)]
pub struct TagSet {
    tags: Vec<String>,
}

impl View for TagSet {
    type V = Set<Seq<char>>;

    closed spec fn view(&self) -> Set<Seq<char>> {
        texts(self.tags@).to_set()
    }
}

impl TagSet {
    #[verifier::type_invariant]
    spec fn ordered(self) -> bool {
        ascending(texts(self.tags@))
    }

    /// No tags.
    pub fn new() -> (set: TagSet)
        ensures
            set@ == Set::<Seq<char>>::empty(),
    {
        let set = TagSet { tags: Vec::new() };
        assert(set@ =~= Set::<Seq<char>>::empty());
        set
    }

    /// The tags, in ascending order and none twice.
    pub fn list(&self) -> (list: &Vec<String>)
        ensures
            ascending(texts(list@)),
            texts(list@).to_set() == self@,
    {
        proof {
            use_type_invariant(self);
        }
        &self.tags
    }

    /// The set with one more tag, or the same set where the tag is in it.
    pub fn with(self, tag: String) -> (set: TagSet)
        ensures
            set@ == self@.insert(tag@),
    {
        proof {
            use_type_invariant(&self);
        }
        let ghost before = texts(self.tags@);
        let mut tags = self.tags;
        let mut i: usize = 0;
        while i < tags.len() && comes_before(tags[i].as_str(), tag.as_str())
            invariant
                i <= tags.len(),
                before == texts(tags@),
                forall|j: int| 0 <= j < i ==> precedes(#[trigger] before[j], tag@),
            decreases tags.len() - i,
        {
            i = i + 1;
        }
        if i < tags.len() && tags[i] == tag {
            assert(before[i as int] == tag@);
            assert(before.to_set().insert(tag@) =~= before.to_set());
            return TagSet { tags };
        }
        proof {
            if i < tags.len() {
                precedes_is_total(before[i as int], tag@);
            }
            assert forall|j: int| i <= j < before.len() implies precedes(
                tag@,
                #[trigger] before[j],
            ) by {
                if i < j {
                    precedes_is_transitive(tag@, before[i as int], before[j]);
                }
            }
        }
        let ghost text = tag@;
        tags.insert(i, tag);
        proof {
            let after = texts(tags@);
            assert(after =~= before.insert(i as int, text));
            assert forall|j: int, k: int| 0 <= j < k < after.len() implies precedes(
                #[trigger] after[j],
                #[trigger] after[k],
            ) by {
                let dj = if j < i { j } else { j - 1 };
                let dk = if k < i { k } else { k - 1 };
                if j != i {
                    assert(after[j] == before[dj]);
                }
                if k != i {
                    assert(after[k] == before[dk]);
                }
            }
            assert forall|t: Seq<char>| #[trigger]
                after.to_set().contains(t) <==> before.to_set().insert(text).contains(t) by {
                if before.contains(t) {
                    let k = choose|k: int| 0 <= k < before.len() && before[k] == t;
                    assert(after[if k < i { k } else { k + 1 }] == t);
                }
                assert(after[i as int] == text);
                if after.contains(t) && t != text {
                    let k = choose|k: int| 0 <= k < after.len() && after[k] == t;
                    assert(before[if k < i { k } else { k - 1 }] == t);
                }
            }
            assert(after.to_set() =~= before.to_set().insert(text));
        }
        TagSet { tags }
    }

    /// The set with the tags of a list added to it.
    pub fn with_all(self, more: &Vec<String>) -> (set: TagSet)
        ensures
            set@ == self@.union(texts(more@).to_set()),
    {
        let ghost before = self@;
        let ghost added = texts(more@);
        let mut set = self;
        let mut i: usize = 0;
        proof {
            assert(before.union(added.take(0).to_set()) =~= before);
        }
        while i < more.len()
            invariant
                i <= more.len(),
                added == texts(more@),
                set@ == before.union(added.take(i as int).to_set()),
            decreases more.len() - i,
        {
            let ghost so_far = added.take(i as int);
            set = set.with(more[i].clone());
            proof {
                let next = added.take(i + 1);
                assert(next =~= so_far.push(added[i as int]));
                assert forall|t: Seq<char>| #[trigger]
                    next.to_set().contains(t) <==> so_far.to_set().insert(
                        added[i as int],
                    ).contains(t) by {
                    if so_far.contains(t) {
                        let k = choose|k: int| 0 <= k < so_far.len() && so_far[k] == t;
                        assert(next[k] == t);
                    }
                    assert(next[i as int] == added[i as int]);
                    if next.contains(t) && t != added[i as int] {
                        let k = choose|k: int| 0 <= k < next.len() && next[k] == t;
                        assert(so_far[k] == t);
                    }
                }
                assert(set@ =~= before.union(next.to_set()));
            }
            i = i + 1;
        }
        assert(added.take(i as int) =~= added);
        set
    }
}

impl Default for TagSet {
    fn default() -> (set: TagSet)
        ensures
            set@ == Set::<Seq<char>>::empty(),
    {
        TagSet::new()
    }
}

impl Clone for TagSet {
    fn clone(&self) -> (set: TagSet)
        ensures
            set@ == self@,
    {
        proof {
            use_type_invariant(self);
        }
        TagSet { tags: copy_strings(&self.tags) }
    }
}

} // verus!
