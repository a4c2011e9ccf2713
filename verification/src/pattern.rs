//! The parts of the path pattern syntax: parameters in braces, the separator that
//! ends a parameter's name, and the marks of a rest parameter.

use vstd::prelude::*;

verus! {

/// Where, counted from the start of `s`, the brace closes that was opened right
/// before `s`, with `depth` further braces open. A backslash takes the character
/// after it out of the count.
pub open spec fn closing_brace(s: Seq<char>, depth: nat) -> Option<int>
    decreases s.len(),
{
    if s.len() == 0 {
        None
    } else if s[0] == '\\' {
        if s.len() == 1 {
            None
        } else {
            shifted(closing_brace(s.skip(2), depth), 2)
        }
    } else if s[0] == '{' {
        shifted(closing_brace(s.skip(1), depth + 1), 1)
    } else if s[0] == '}' {
        if depth == 0 {
            Some(0)
        } else {
            shifted(closing_brace(s.skip(1), (depth - 1) as nat), 1)
        }
    } else {
        shifted(closing_brace(s.skip(1), depth), 1)
    }
}

/// An index counted from an earlier start.
pub open spec fn shifted(at: Option<int>, by: int) -> Option<int> {
    match at {
        Some(i) => Some(i + by),
        None => None,
    }
}

/// The brace that closes is inside the text, and is a closing brace.
pub proof fn lemma_closing_brace_in_range(s: Seq<char>, depth: nat)
    ensures
        closing_brace(s, depth) matches Some(i) ==> 0 <= i < s.len() && s[i] == '}',
    decreases s.len(),
{
    if s.len() > 0 {
        if s[0] == '\\' {
            if s.len() > 1 {
                lemma_closing_brace_in_range(s.skip(2), depth);
            }
        } else if s[0] == '{' {
            lemma_closing_brace_in_range(s.skip(1), depth + 1);
        } else if s[0] == '}' {
            if depth > 0 {
                lemma_closing_brace_in_range(s.skip(1), (depth - 1) as nat);
            }
        } else {
            lemma_closing_brace_in_range(s.skip(1), depth);
        }
    }
}

/// Finds the brace that closes the one right before `from`.
pub fn find_closing_brace(chars: &Vec<char>, from: usize) -> (end: Option<usize>)
    requires
        from <= chars.len(),
    ensures
        match end {
            Some(i) => from <= i < chars.len() && closing_brace(chars@.skip(from as int), 0)
                == Some(i - from),
            None => closing_brace(chars@.skip(from as int), 0) is None,
        },
{
    let mut i: usize = from;
    let mut depth: usize = 0;
    let mut escaping = false;
    proof {
        assert(chars@.skip(from as int).skip(0) =~= chars@.skip(from as int));
    }
    while i < chars.len()
        invariant
            from <= i <= chars.len(),
            depth <= i,
            escaping ==> from < i && chars@[i - 1] == '\\',
            closing_brace(chars@.skip(from as int), 0) == shifted(
                closing_brace(
                    chars@.skip(if escaping { i - 1 } else { i as int }),
                    depth as nat,
                ),
                if escaping { i - 1 - from } else { i - from },
            ),
        decreases chars.len() - i,
    {
        let current = chars[i];
        let ghost here = if escaping { i - 1 } else { i as int };
        let ghost rest = chars@.skip(here);
        proof {
            assert(rest.skip(1) =~= chars@.skip(here + 1));
            if rest.len() >= 2 {
                assert(rest.skip(2) =~= chars@.skip(here + 2));
            }
        }
        if escaping {
            escaping = false;
        } else if current == '\\' {
            escaping = true;
        } else if current == '{' {
            depth = depth + 1;
        } else if current == '}' {
            if depth == 0 {
                return Some(i);
            }
            depth = depth - 1;
        }
        i = i + 1;
    }
    None
}

/// Where the name of a parameter ends: at the first separator of a constraint.
pub open spec fn name_end(content: Seq<char>) -> int
    decreases content.len(),
{
    if content.len() == 0 || content[0] == ':' || content[0] == '|' {
        0
    } else {
        1 + name_end(content.skip(1))
    }
}

/// The name ends inside the content.
pub proof fn lemma_name_end_in_range(content: Seq<char>)
    ensures
        0 <= name_end(content) <= content.len(),
    decreases content.len(),
{
    if content.len() > 0 {
        lemma_name_end_in_range(content.skip(1));
    }
}

/// Finds the end of the name in the content between `from` and `to`.
pub fn find_name_end(chars: &Vec<char>, from: usize, to: usize) -> (end: usize)
    requires
        from <= to <= chars.len(),
    ensures
        from <= end <= to,
        end - from == name_end(chars@.subrange(from as int, to as int)),
{
    let mut i: usize = from;
    while i < to
        invariant
            from <= i <= to <= chars.len(),
            name_end(chars@.subrange(from as int, to as int)) == i - from + name_end(
                chars@.subrange(i as int, to as int),
            ),
        decreases to - i,
    {
        let c = chars[i];
        let ghost rest = chars@.subrange(i as int, to as int);
        if c == ':' || c == '|' {
            return i;
        }
        proof {
            assert(rest.skip(1) =~= chars@.subrange(i + 1, to as int));
        }
        i = i + 1;
    }
    i
}

/// How many characters at the start of a name mark it as a rest parameter.
pub open spec fn rest_marks(name: Seq<char>) -> int {
    if name.len() == 0 || name[0] != '*' {
        0
    } else if name.len() > 1 && (name[1] == '+' || name[1] == '?' || name[1] == '*') {
        2
    } else {
        1
    }
}

/// Counts the rest marks of the name between `from` and `to`.
pub fn count_rest_marks(chars: &Vec<char>, from: usize, to: usize) -> (n: usize)
    requires
        from <= to <= chars.len(),
    ensures
        n == rest_marks(chars@.subrange(from as int, to as int)),
        n <= to - from,
{
    if from == to || chars[from] != '*' {
        0
    } else if to - from > 1 && (chars[from + 1] == '+' || chars[from + 1] == '?' || chars[from + 1]
        == '*') {
        2
    } else {
        1
    }
}

} // verus!
