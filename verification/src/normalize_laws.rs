//! What holds of the normalized form of every path pattern.

use vstd::prelude::*;

use crate::normalize::{normalized, param_name};
use crate::pattern::{
    closing_brace, lemma_closing_brace_in_range, lemma_name_end_in_range, name_end, rest_marks,
};

verus! {

/// Text without an opening brace stays as it is in front of a pattern.
pub proof fn literal_prefix_is_kept(prefix: Seq<char>, rest: Seq<char>)
    requires
        !prefix.contains('{'),
    ensures
        normalized(prefix + rest) == prefix + normalized(rest),
    decreases prefix.len(),
{
    if prefix.len() == 0 {
        assert(prefix + rest =~= rest);
        assert(prefix + normalized(rest) =~= normalized(rest));
    } else {
        let tail = prefix.skip(1);
        assert(prefix[0] != '{');
        assert forall|i: int| 0 <= i < tail.len() implies tail[i] != '{' by {
            assert(tail[i] == prefix[i + 1]);
        }
        literal_prefix_is_kept(tail, rest);
        assert((prefix + rest).skip(1) =~= tail + rest);
        assert(seq![prefix[0]] + (tail + normalized(rest)) =~= prefix + normalized(rest));
    }
}

/// A path without parameters is normalized as it stands.
pub proof fn plain_path_is_kept(path: Seq<char>)
    requires
        !path.contains('{'),
    ensures
        normalized(path) == path,
{
    literal_prefix_is_kept(path, seq![]);
    assert(path + Seq::<char>::empty() =~= path);
}

/// An escaped opening brace is kept with its escape.
pub proof fn escaped_brace_is_kept(rest: Seq<char>)
    ensures
        normalized(seq!['{', '{'] + rest) == seq!['{', '{'] + normalized(rest),
{
    assert((seq!['{', '{'] + rest).skip(2) =~= rest);
}

/// A parameter is cut down to its name in braces, wherever it stands in the pattern
/// that its closing brace is found.
pub proof fn parameter_is_cut_to_its_name(content: Seq<char>, rest: Seq<char>)
    requires
        content.len() == 0 || content[0] != '{',
        closing_brace(content + seq!['}'] + rest, 0) == Some(content.len() as int),
    ensures
        normalized(seq!['{'] + content + seq!['}'] + rest) == seq!['{'] + param_name(content)
            + seq!['}'] + normalized(rest),
{
    let path = seq!['{'] + content + seq!['}'] + rest;
    assert(path.skip(1) =~= content + seq!['}'] + rest);
    assert(path.skip(1).take(content.len() as int) =~= content);
    assert(path.skip((content.len() + 2) as int) =~= rest);
    assert(path[1] == (content + seq!['}'] + rest)[0]);
}

/// From an opening brace that is never closed, the pattern is kept.
pub proof fn unclosed_parameter_is_kept(rest: Seq<char>)
    requires
        rest.len() == 0 || rest[0] != '{',
        closing_brace(rest, 0) is None,
    ensures
        normalized(seq!['{'] + rest) == seq!['{'] + rest,
{
    assert((seq!['{'] + rest).skip(1) =~= rest);
}

/// The name that is left of a parameter has no constraint.
pub proof fn name_has_no_constraint(content: Seq<char>)
    ensures
        !param_name(content).contains(':'),
        !param_name(content).contains('|'),
{
    lemma_name_end_in_range(content);
    lemma_before_name_end(content);
    let name = content.take(name_end(content));
    let bare = param_name(content);
    assert forall|i: int| 0 <= i < bare.len() implies bare[i] != ':' && bare[i] != '|' by {
        assert(bare[i] == content[i + rest_marks(name)]);
    }
}

proof fn lemma_before_name_end(content: Seq<char>)
    ensures
        forall|i: int|
            0 <= i < name_end(content) ==> #[trigger] content[i] != ':' && content[i] != '|',
    decreases content.len(),
{
    if content.len() > 0 && content[0] != ':' && content[0] != '|' {
        lemma_before_name_end(content.skip(1));
        assert forall|i: int| 0 <= i < name_end(content) implies #[trigger] content[i] != ':'
            && content[i] != '|' by {
            if i > 0 {
                lemma_name_end_in_range(content.skip(1));
                assert(content[i] == content.skip(1)[i - 1]);
            }
        }
    }
}

/// Normalizing never makes a pattern longer.
pub proof fn normalized_is_no_longer(path: Seq<char>)
    ensures
        normalized(path).len() <= path.len(),
    decreases path.len(),
{
    if path.len() > 0 {
        if path[0] != '{' {
            normalized_is_no_longer(path.skip(1));
        } else if path.len() > 1 && path[1] == '{' {
            normalized_is_no_longer(path.skip(2));
        } else if let Some(end) = closing_brace(path.skip(1), 0) {
            lemma_closing_brace_in_range(path.skip(1), 0);
            lemma_name_end_in_range(path.skip(1).take(end));
            normalized_is_no_longer(path.skip(end + 2));
        }
    }
}

/// How often a character stands in a text.
pub open spec fn times(c: char, s: Seq<char>) -> nat {
    s.to_multiset().count(c)
}

/// Whether no prefix of a text closes more braces than it opens.
pub open spec fn never_closes_early(s: Seq<char>) -> bool {
    forall|n: int|
        0 <= n <= s.len() ==> times('}', #[trigger] s.take(n)) <= times('{', s.take(n))
}

/// Whether every brace that a text opens is closed in it, and no other.
pub open spec fn balanced(s: Seq<char>) -> bool {
    never_closes_early(s) && times('}', s) == times('{', s)
}

/// Whether a text is one of the marks of a rest parameter, or empty.
pub open spec fn is_mark(s: Seq<char>) -> bool {
    s == Seq::<char>::empty() || s == seq!['*'] || s == seq!['*', '*'] || s == seq!['*', '+']
        || s == seq!['*', '?']
}

/// Whether a text has none of the characters that mean something inside a parameter.
pub open spec fn bare_name(s: Seq<char>) -> bool {
    forall|i: int|
        0 <= i < s.len() ==> #[trigger] s[i] != '{' && s[i] != '}' && s[i] != ':' && s[i] != '|'
            && s[i] != '\\'
}

proof fn lemma_times_first(c: char, s: Seq<char>)
    requires
        s.len() > 0,
    ensures
        times(c, s) == times(c, s.skip(1)) + (if s[0] == c {
            1nat
        } else {
            0nat
        }),
{
    broadcast use vstd::seq_lib::group_to_multiset_ensures;

    let first = Seq::<char>::empty().push(s[0]);
    assert(s =~= first + s.skip(1));
    vstd::seq_lib::lemma_multiset_commutative(first, s.skip(1));
    assert(first.to_multiset() =~= Seq::<char>::empty().to_multiset().insert(s[0]));
}

/// A parameter closes at the first brace that closes more than was opened.
proof fn lemma_closing_by_count(s: Seq<char>, depth: nat, end: int)
    requires
        !s.contains('\\'),
        0 <= end < s.len(),
        s[end] == '}',
        times('}', s.take(end)) == times('{', s.take(end)) + depth,
        forall|n: int|
            0 <= n <= end ==> times('}', #[trigger] s.take(n)) <= times('{', s.take(n)) + depth,
    ensures
        closing_brace(s, depth) == Some(end),
    decreases s.len(),
{
    let rest = s.skip(1);
    assert(s.contains(s[0]));
    assert forall|i: int| 0 <= i < rest.len() implies rest[i] != '\\' by {
        assert(s.contains(s[i + 1]));
    }
    assert forall|n: int| 0 <= n < s.len() implies #[trigger] s.take(n + 1).skip(1) == rest.take(
        n,
    ) by {
        assert(s.take(n + 1).skip(1) =~= rest.take(n));
    }
    if end == 0 {
        assert(s.take(0) =~= Seq::<char>::empty());
        lemma_none_in_empty();
    } else {
        let next: nat = if s[0] == '{' {
            depth + 1
        } else if s[0] == '}' {
            (depth - 1) as nat
        } else {
            depth
        };
        lemma_none_in_empty();
        if s[0] == '}' {
            lemma_times_first('}', s.take(1));
            lemma_times_first('{', s.take(1));
            assert(s.take(1).skip(1) =~= Seq::<char>::empty());
            assert(times('}', s.take(1)) <= times('{', s.take(1)) + depth);
            assert(depth > 0);
        }
        assert forall|n: int| 0 <= n <= end - 1 implies times('}', #[trigger] rest.take(n))
            <= times('{', rest.take(n)) + next by {
            assert(s.take(n + 1).skip(1) == rest.take(n));
            lemma_times_first('}', s.take(n + 1));
            lemma_times_first('{', s.take(n + 1));
        }
        assert(s.take(end - 1 + 1).skip(1) == rest.take(end - 1));
        lemma_times_first('}', s.take(end));
        lemma_times_first('{', s.take(end));
        lemma_closing_by_count(rest, next, end - 1);
    }
}

proof fn lemma_none_in_empty()
    ensures
        forall|c: char| #[trigger] times(c, Seq::<char>::empty()) == 0,
{
    broadcast use vstd::seq_lib::group_to_multiset_ensures;

}

proof fn lemma_never_closing_by_count(s: Seq<char>, depth: nat)
    requires
        !s.contains('\\'),
        forall|n: int|
            0 <= n <= s.len() ==> times('}', #[trigger] s.take(n)) <= times('{', s.take(n)) + depth,
    ensures
        closing_brace(s, depth) is None,
    decreases s.len(),
{
    if s.len() > 0 {
        let rest = s.skip(1);
        assert(s.contains(s[0]));
        assert forall|i: int| 0 <= i < rest.len() implies rest[i] != '\\' by {
            assert(s.contains(s[i + 1]));
        }
        lemma_none_in_empty();
        lemma_times_first('}', s.take(1));
        lemma_times_first('{', s.take(1));
        assert(s.take(1).skip(1) =~= Seq::<char>::empty());
        assert(times('}', s.take(1)) <= times('{', s.take(1)) + depth);
        let next: nat = if s[0] == '{' {
            depth + 1
        } else if s[0] == '}' {
            (depth - 1) as nat
        } else {
            depth
        };
        assert forall|n: int| 0 <= n <= rest.len() implies times('}', #[trigger] rest.take(n))
            <= times('{', rest.take(n)) + next by {
            assert(s.take(n + 1).skip(1) =~= rest.take(n));
            lemma_times_first('}', s.take(n + 1));
            lemma_times_first('{', s.take(n + 1));
        }
        lemma_never_closing_by_count(rest, next);
    }
}

/// Bare text in front changes neither the count nor the balance.
proof fn lemma_bare_prefix(name: Seq<char>, text: Seq<char>)
    requires
        forall|i: int| 0 <= i < name.len() ==> #[trigger] name[i] != '{' && name[i] != '}',
        balanced(text),
    ensures
        balanced(name + text),
    decreases name.len(),
{
    if name.len() == 0 {
        assert(name + text =~= text);
    } else {
        let rest = name.skip(1) + text;
        let all = name + text;
        lemma_bare_prefix(name.skip(1), text);
        assert(all.skip(1) =~= rest);
        lemma_times_first('{', all);
        lemma_times_first('}', all);
        lemma_none_in_empty();
        assert forall|n: int| 0 <= n <= all.len() implies times('}', #[trigger] all.take(n))
            <= times('{', all.take(n)) by {
            if n == 0 {
                assert(all.take(0) =~= Seq::<char>::empty());
            } else {
                assert(all.take(n).skip(1) =~= rest.take(n - 1));
                lemma_times_first('{', all.take(n));
                lemma_times_first('}', all.take(n));
                assert(times('}', rest.take(n - 1)) <= times('{', rest.take(n - 1)));
            }
        }
    }
}

proof fn lemma_name_end_at(name: Seq<char>, constraint: Seq<char>)
    requires
        forall|i: int| 0 <= i < name.len() ==> #[trigger] name[i] != ':' && name[i] != '|',
        constraint.len() > 0 ==> constraint[0] == ':' || constraint[0] == '|',
    ensures
        name_end(name + constraint) == name.len(),
    decreases name.len(),
{
    if name.len() == 0 {
        assert(name + constraint =~= constraint);
    } else {
        lemma_name_end_at(name.skip(1), constraint);
        assert((name + constraint).skip(1) =~= name.skip(1) + constraint);
    }
}

/// A parameter is cut down to the whole of its name: neither more nor less is left of what
/// stands between its braces than the text behind the rest mark, where there is one, and
/// before the first colon or bar, where there is one. There may be further braces between the
/// two, as long as they balance.
pub proof fn whole_name_is_left(
    mark: Seq<char>,
    name: Seq<char>,
    constraint: Seq<char>,
    rest: Seq<char>,
)
    requires
        is_mark(mark),
        !name.contains(':'),
        !name.contains('|'),
        !name.contains('\\'),
        mark.len() == 0 && name.len() > 0 ==> name[0] != '*' && name[0] != '{',
        mark.len() == 1 && name.len() > 0 ==> name[0] != '*' && name[0] != '+' && name[0] != '?',
        constraint.len() > 0 ==> constraint[0] == ':' || constraint[0] == '|',
        !constraint.contains('\\'),
        balanced(name + constraint),
    ensures
        normalized(seq!['{'] + mark + name + constraint + seq!['}'] + rest) == seq!['{'] + name
            + seq!['}'] + normalized(rest),
{
    let marked = mark + name;
    let content = marked + constraint;
    assert forall|i: int| 0 <= i < marked.len() implies #[trigger] marked[i] != ':' && marked[i]
        != '|' && marked[i] != '\\' by {
        if i >= mark.len() {
            assert(name.contains(name[i - mark.len()]));
        }
    }
    lemma_bare_prefix(mark, name + constraint);
    assert(content =~= mark + (name + constraint));
    assert(!content.contains('\\')) by {
        assert forall|i: int| 0 <= i < content.len() implies content[i] != '\\' by {
            if i < marked.len() {
                assert(content[i] == marked[i]);
            } else {
                assert(constraint.contains(constraint[i - marked.len()]));
            }
        }
    }
    lemma_closing_of_balanced(content, rest);
    lemma_name_end_at(marked, constraint);
    assert(content.take(name_end(content)) =~= marked);
    assert(rest_marks(marked) == mark.len());
    assert(param_name(content) =~= name);
    assert(content.len() > 0 ==> content[0] != '{') by {
        if marked.len() > 0 {
            assert(content[0] == marked[0]);
        } else if constraint.len() > 0 {
            assert(content[0] == constraint[0]);
        }
    }
    assert(seq!['{'] + mark + name + constraint + seq!['}'] + rest =~= seq!['{'] + content
        + seq!['}'] + rest);
    parameter_is_cut_to_its_name(content, rest);
}

/// The closing brace of a parameter is the one behind its balanced content, whatever the
/// rest of the pattern is.
proof fn lemma_closing_of_balanced(content: Seq<char>, rest: Seq<char>)
    requires
        !content.contains('\\'),
        balanced(content),
    ensures
        closing_brace(content + seq!['}'] + rest, 0) == Some(content.len() as int),
{
    let closed = content + seq!['}'];
    assert forall|i: int| 0 <= i < closed.len() implies closed[i] != '\\' by {
        if i < content.len() {
            assert(content.contains(content[i]));
        }
    }
    assert forall|n: int| 0 <= n <= content.len() implies times('}', #[trigger] closed.take(n))
        <= times('{', closed.take(n)) by {
        assert(closed.take(n) =~= content.take(n));
    }
    assert(closed.take(content.len() as int) =~= content);
    lemma_closing_by_count(closed, 0, content.len() as int);
    lemma_closing_ignores_later(closed, rest, 0);
}

/// What stands behind the closing brace does not matter.
proof fn lemma_closing_ignores_later(s: Seq<char>, rest: Seq<char>, depth: nat)
    requires
        closing_brace(s, depth) is Some,
    ensures
        closing_brace(s + rest, depth) == closing_brace(s, depth),
    decreases s.len(),
{
    let all = s + rest;
    if s[0] == '\\' {
        lemma_closing_ignores_later(s.skip(2), rest, depth);
        assert(all.skip(2) =~= s.skip(2) + rest);
    } else if s[0] == '{' {
        lemma_closing_ignores_later(s.skip(1), rest, depth + 1);
        assert(all.skip(1) =~= s.skip(1) + rest);
    } else if s[0] == '}' {
        if depth > 0 {
            lemma_closing_ignores_later(s.skip(1), rest, (depth - 1) as nat);
            assert(all.skip(1) =~= s.skip(1) + rest);
        }
    } else {
        lemma_closing_ignores_later(s.skip(1), rest, depth);
        assert(all.skip(1) =~= s.skip(1) + rest);
    }
}

/// From an opening brace on that the pattern never closes, the pattern is kept.
pub proof fn open_end_is_kept(rest: Seq<char>)
    requires
        rest.len() == 0 || rest[0] != '{',
        !rest.contains('\\'),
        never_closes_early(rest),
    ensures
        normalized(seq!['{'] + rest) == seq!['{'] + rest,
{
    lemma_never_closing_by_count(rest, 0);
    unclosed_parameter_is_kept(rest);
}

proof fn lemma_escape_is_skipped(a: Seq<char>, c: char, b: Seq<char>, depth: nat)
    requires
        !a.contains('\\'),
        forall|n: int|
            0 <= n <= a.len() ==> times('}', #[trigger] a.take(n)) <= times('{', a.take(n)) + depth,
        closing_brace(a + b, depth) is Some,
    ensures
        closing_brace(a + seq!['\\', c] + b, depth) == Some(
            closing_brace(a + b, depth)->0 + 2,
        ),
    decreases a.len(),
{
    let plain = a + b;
    let escaped = a + seq!['\\', c] + b;
    if a.len() == 0 {
        assert(plain =~= b);
        assert(escaped.skip(2) =~= b);
    } else {
        let rest = a.skip(1);
        assert(a.contains(a[0]));
        assert forall|i: int| 0 <= i < rest.len() implies rest[i] != '\\' by {
            assert(a.contains(a[i + 1]));
        }
        lemma_none_in_empty();
        lemma_times_first('}', a.take(1));
        lemma_times_first('{', a.take(1));
        assert(a.take(1).skip(1) =~= Seq::<char>::empty());
        assert(times('}', a.take(1)) <= times('{', a.take(1)) + depth);
        let next: nat = if a[0] == '{' {
            depth + 1
        } else if a[0] == '}' {
            (depth - 1) as nat
        } else {
            depth
        };
        assert forall|n: int| 0 <= n <= rest.len() implies times('}', #[trigger] rest.take(n))
            <= times('{', rest.take(n)) + next by {
            assert(a.take(n + 1).skip(1) =~= rest.take(n));
            lemma_times_first('}', a.take(n + 1));
            lemma_times_first('{', a.take(n + 1));
        }
        assert(plain.skip(1) =~= rest + b);
        assert(escaped.skip(1) =~= rest + seq!['\\', c] + b);
        lemma_escape_is_skipped(rest, c, b, next);
    }
}

/// A character with a backslash before it, inside the constraint of a parameter, closes
/// and opens nothing: the parameter is normalized as if the two were not there.
pub proof fn escaped_character_closes_nothing(
    name: Seq<char>,
    before: Seq<char>,
    c: char,
    behind: Seq<char>,
    rest: Seq<char>,
)
    requires
        bare_name(name),
        name.len() > 0 ==> name[0] != '*',
        before.len() > 0,
        before[0] == ':' || before[0] == '|',
        !before.contains('\\'),
        !behind.contains('\\'),
        balanced(before + behind),
    ensures
        normalized(
            seq!['{'] + name + before + seq!['\\', c] + behind + seq!['}'] + rest,
        ) == seq!['{'] + name + seq!['}'] + normalized(rest),
{
    let constraint = before + behind;
    let a = name + before;
    let b = behind + seq!['}'] + rest;
    let content = a + seq!['\\', c] + behind;
    assert forall|i: int| 0 <= i < constraint.len() implies constraint[i] != '\\' by {
        if i < before.len() {
            assert(before.contains(before[i]));
        } else {
            assert(behind.contains(behind[i - before.len()]));
        }
    }
    lemma_bare_prefix(name, constraint);
    let plain = name + constraint;
    assert forall|i: int| 0 <= i < plain.len() implies plain[i] != '\\' by {
        if i < name.len() {
            assert(plain[i] == name[i]);
        } else {
            assert(constraint.contains(constraint[i - name.len()]));
        }
    }
    lemma_closing_of_balanced(plain, rest);
    assert(plain + seq!['}'] + rest =~= a + b);
    assert forall|i: int| 0 <= i < a.len() implies a[i] != '\\' by {
        assert(a[i] == plain[i]);
        assert(plain.contains(plain[i]));
    }
    assert forall|n: int| 0 <= n <= a.len() implies times('}', #[trigger] a.take(n)) <= times(
        '{',
        a.take(n),
    ) by {
        assert(a.take(n) =~= plain.take(n));
        assert(times('}', plain.take(n)) <= times('{', plain.take(n)));
    }
    lemma_escape_is_skipped(a, c, b, 0);
    assert(a + seq!['\\', c] + b =~= content + seq!['}'] + rest);
    let tail = before + seq!['\\', c] + behind;
    assert(content =~= name + tail);
    assert(tail[0] == before[0]);
    lemma_name_end_at(name, tail);
    assert(content.take(name_end(content)) =~= name);
    assert(param_name(content) =~= name);
    assert(content.len() > 0 ==> content[0] != '{') by {
        if name.len() > 0 {
            assert(content[0] == name[0]);
        } else {
            assert(content[0] == before[0]);
        }
    }
    assert(seq!['{'] + name + before + seq!['\\', c] + behind + seq!['}'] + rest =~= seq!['{']
        + content + seq!['}'] + rest);
    parameter_is_cut_to_its_name(content, rest);
}

/// A character with a backslash before it, inside the name of a parameter, closes and ends
/// nothing: the two belong to the name.
pub proof fn escaped_character_stays_in_the_name(
    first: Seq<char>,
    c: char,
    second: Seq<char>,
    rest: Seq<char>,
)
    requires
        bare_name(first),
        bare_name(second),
        first.len() > 0 ==> first[0] != '*',
        c != ':' && c != '|',
    ensures
        normalized(seq!['{'] + first + seq!['\\', c] + second + seq!['}'] + rest) == seq!['{']
            + first + seq!['\\', c] + second + seq!['}'] + normalized(rest),
{
    let content = first + seq!['\\', c] + second;
    let plain = first + second;
    let b = second + seq!['}'] + rest;
    let none = Seq::<char>::empty();
    lemma_none_in_empty();
    assert forall|n: int| 0 <= n <= none.len() implies times('}', #[trigger] none.take(n)) <= times(
        '{',
        none.take(n),
    ) by {
        assert(none.take(n) =~= none);
    }
    assert forall|i: int| 0 <= i < plain.len() implies #[trigger] plain[i] != '{' && plain[i] != '}'
        && plain[i] != '\\' by {
        if i < first.len() {
            assert(plain[i] == first[i]);
        } else {
            assert(plain[i] == second[i - first.len()]);
        }
    }
    lemma_bare_prefix(plain, none);
    assert(plain + none =~= plain);
    lemma_closing_of_balanced(plain, rest);
    assert(plain + seq!['}'] + rest =~= first + b);
    lemma_bare_prefix(first, none);
    assert(first + none =~= first);
    lemma_escape_is_skipped(first, c, b, 0);
    assert(first + seq!['\\', c] + b =~= content + seq!['}'] + rest);
    assert forall|i: int| 0 <= i < content.len() implies #[trigger] content[i] != ':' && content[i]
        != '|' by {
        if i < first.len() {
            assert(content[i] == first[i]);
        } else if i >= first.len() + 2 {
            assert(content[i] == second[i - first.len() - 2]);
        }
    }
    lemma_name_end_at(content, none);
    assert(content + none =~= content);
    assert(content.take(content.len() as int) =~= content);
    assert(content[0] == (if first.len() > 0 {
        first[0]
    } else {
        '\\'
    }));
    assert(param_name(content) =~= content);
    assert(seq!['{'] + first + seq!['\\', c] + second + seq!['}'] + rest =~= seq!['{'] + content
        + seq!['}'] + rest);
    parameter_is_cut_to_its_name(content, rest);
    assert(seq!['{'] + content + seq!['}'] + normalized(rest) =~= seq!['{'] + first + seq![
        '\\',
        c,
    ] + second + seq!['}'] + normalized(rest));
}

proof fn lemma_nothing_closes(s: Seq<char>, depth: nat)
    requires
        !s.contains('}'),
    ensures
        closing_brace(s, depth) is None,
    decreases s.len(),
{
    if s.len() > 0 {
        let n: int = if s[0] == '\\' && s.len() > 1 {
            2
        } else {
            1
        };
        assert(s.contains(s[0]));
        let rest = s.skip(n);
        assert forall|i: int| 0 <= i < rest.len() implies rest[i] != '}' by {
            assert(s.contains(s[i + n]));
        }
        if s[0] == '{' {
            lemma_nothing_closes(rest, depth + 1);
        } else {
            lemma_nothing_closes(rest, depth);
        }
    }
}

/// From an opening brace on behind which no brace closes, the pattern is kept.
pub proof fn pattern_that_closes_nothing_is_kept(rest: Seq<char>)
    requires
        rest.len() == 0 || rest[0] != '{',
        !rest.contains('}'),
    ensures
        normalized(seq!['{'] + rest) == seq!['{'] + rest,
{
    lemma_nothing_closes(rest, 0);
    unclosed_parameter_is_kept(rest);
}

/// Whether the brace that opens at `i` closes at `j` around a plain name.
pub open spec fn plain_between(path: Seq<char>, i: int, j: int) -> bool {
    &&& i < j < path.len()
    &&& path[j] == '}'
    &&& path[i + 1] != '*'
    &&& forall|k: int|
        i < k < j ==> #[trigger] path[k] != '{' && path[k] != '}' && path[k] != ':' && path[k]
            != '|' && path[k] != '\\'
}

/// A pattern whose parameters are all plain names is normalized to itself.
pub proof fn plain_names_are_kept(path: Seq<char>)
    requires
        forall|i: int|
            0 <= i < path.len() && #[trigger] path[i] == '{' ==> exists|j: int|
                plain_between(path, i, j),
    ensures
        normalized(path) == path,
    decreases path.len(),
{
    if path.len() > 0 {
        let from: int = if path[0] != '{' {
            1
        } else {
            (choose|j: int| plain_between(path, 0, j)) + 1
        };
        assert(path[0] == '{' ==> plain_between(path, 0, from - 1));
        let rest = path.skip(from);
        assert forall|i: int| 0 <= i < rest.len() && #[trigger] rest[i] == '{' implies exists|
            j: int,
        |
            plain_between(rest, i, j) by {
            let at = i + from;
            assert(path[at] == '{');
            let j = choose|j: int| plain_between(path, at, j);
            assert forall|k: int| i < k < j - from implies #[trigger] rest[k] != '{' && rest[k]
                != '}' && rest[k] != ':' && rest[k] != '|' && rest[k] != '\\' by {
                assert(rest[k] == path[k + from]);
            }
            assert(plain_between(rest, i, j - from));
        }
        plain_names_are_kept(rest);
        if path[0] != '{' {
            literal_prefix_is_kept(seq![path[0]], rest);
            assert(path =~= seq![path[0]] + rest);
        } else {
            let name = path.subrange(1, from - 1);
            let none = Seq::<char>::empty();
            assert forall|k: int| 0 <= k < name.len() implies #[trigger] name[k] != '{' && name[k]
                != '}' && name[k] != ':' && name[k] != '|' && name[k] != '\\' by {
                assert(name[k] == path[k + 1]);
            }
            lemma_none_in_empty();
            assert forall|n: int| 0 <= n <= none.len() implies times('}', #[trigger] none.take(n))
                <= times('{', none.take(n)) by {
                assert(none.take(n) =~= none);
            }
            lemma_bare_prefix(name, none);
            whole_name_is_left(none, name, none, rest);
            assert(path =~= seq!['{'] + none + name + none + seq!['}'] + rest);
            assert(path =~= seq!['{'] + name + seq!['}'] + rest);
        }
    }
}

} // verus!
