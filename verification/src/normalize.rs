//! Path patterns in the form that OpenAPI documents use.

use vstd::prelude::*;

use crate::pattern::{
    closing_brace, count_rest_marks, find_closing_brace, find_name_end,
    lemma_closing_brace_in_range, name_end, rest_marks,
};
use crate::text::{chars_of, push_chars};

verus! {

/// The name of a parameter, given what stands between its braces: without the
/// constraint that may follow it and the rest marks that may precede it.
pub open spec fn param_name(content: Seq<char>) -> Seq<char> {
    let name = content.take(name_end(content));
    name.skip(rest_marks(name))
}

/// A path pattern as OpenAPI writes it: each parameter is cut down to its name in
/// braces. Escaped braces, and everything from a brace on that is never closed,
/// stay as they are.
pub open spec fn normalized(path: Seq<char>) -> Seq<char>
    decreases path.len(),
{
    if path.len() == 0 {
        path
    } else if path[0] != '{' {
        seq![path[0]] + normalized(path.skip(1))
    } else if path.len() > 1 && path[1] == '{' {
        seq!['{', '{'] + normalized(path.skip(2))
    } else {
        match closing_brace(path.skip(1), 0) {
            Some(end) => {
                proof {
                    lemma_closing_brace_in_range(path.skip(1), 0);
                }
                let content = path.skip(1).take(end);
                seq!['{'] + param_name(content) + seq!['}'] + normalized(path.skip(end + 2))
            },
            None => path,
        }
    }
}

/// Rewrites a path pattern for an OpenAPI document.
pub fn normalize_oapi_path(path: &str) -> (result: String)
    ensures
        result@ == normalized(path@),
{
    let chars = chars_of(path);
    let mut out = String::new();
    let mut i: usize = 0;
    proof {
        assert(chars@.skip(0) =~= chars@);
        assert(out@ + normalized(chars@.skip(0)) =~= normalized(chars@));
    }
    while i < chars.len()
        invariant
            i <= chars.len(),
            chars@ == path@,
            normalized(path@) == out@ + normalized(chars@.skip(i as int)),
        decreases chars.len() - i,
    {
        let ch = chars[i];
        let ghost before = out@;
        let ghost rest = chars@.skip(i as int);
        if ch != '{' {
            out.push(ch);
            i = i + 1;
            proof {
                assert(rest.skip(1) =~= chars@.skip(i as int));
                assert(before + normalized(rest) =~= out@ + normalized(chars@.skip(i as int)));
            }
            continue;
        }
        // Escaped literal braces stay escaped.
        if i + 1 < chars.len() && chars[i + 1] == '{' {
            out.push('{');
            out.push('{');
            i = i + 2;
            proof {
                assert(rest.skip(2) =~= chars@.skip(i as int));
                assert(before + normalized(rest) =~= out@ + normalized(chars@.skip(i as int)));
            }
            continue;
        }
        proof {
            assert(rest.skip(1) =~= chars@.skip(i + 1));
        }
        match find_closing_brace(&chars, i + 1) {
            Some(param_end) => {
                let name_stop = find_name_end(&chars, i + 1, param_end);
                let marks = count_rest_marks(&chars, i + 1, name_stop);
                let ghost content = chars@.subrange(i + 1, param_end as int);
                out.push('{');
                push_chars(&mut out, &chars, i + 1 + marks, name_stop);
                out.push('}');
                proof {
                    let end = param_end - (i + 1);
                    assert(rest.skip(1).take(end) =~= content);
                    let name = chars@.subrange(i + 1, name_stop as int);
                    assert(content.take(name_end(content)) =~= name);
                    assert(name.skip(rest_marks(name)) =~= chars@.subrange(
                        i + 1 + marks,
                        name_stop as int,
                    ));
                    assert(rest.skip(end + 2) =~= chars@.skip(param_end + 1));
                    assert(before + normalized(rest) =~= out@ + normalized(
                        chars@.skip(param_end + 1),
                    ));
                }
                i = param_end + 1;
            },
            None => {
                push_chars(&mut out, &chars, i, chars.len());
                proof {
                    assert(chars@.subrange(i as int, chars@.len() as int) =~= rest);
                    assert(normalized(path@) =~= out@);
                }
                return out;
            },
        }
    }
    proof {
        assert(normalized(path@) =~= out@);
    }
    out
}

} // verus!
