//! What path patterns match and capture, told by the texts of patterns and paths.

use vstd::prelude::*;

use crate::filters::{evaluated, Filter, InfoView, Verdict, World};
use crate::path_filter::{
    captured, cut, joined, label, longest_cut, matching, next_row, piece_takes, remaining, shown,
    step, walked, PathFilter,
};
use crate::path_laws::{
    cut_deals_out_the_segment, cut_is_found_where_there_is_one, deals_out, no_braces, strung,
};
use crate::path_pattern::{
    decimal, first_brace, first_dot, is_digit, num_widths, number, parameter, parsed,
    parsed_segment, parsed_segments, pieces_from, rest_parameter, widths, with_piece, PieceView,
    RestKind, WispView,
};
use crate::path_state::{path_parts, split_walk, ParamsView, PathView};
use crate::pattern::{name_end, rest_marks};

verus! {

proof fn lemma_split_after(a: Seq<char>, q: Seq<char>)
    requires
        split_walk(a).1.len() == 0,
    ensures
        split_walk(a + q).0 == split_walk(a).0 + split_walk(q).0,
        split_walk(a + q).1 == split_walk(q).1,
    decreases q.len(),
{
    if q.len() == 0 {
        assert(a + q =~= a);
        assert(split_walk(a).1 =~= split_walk(q).1);
        assert(split_walk(a).0 + split_walk(q).0 =~= split_walk(a).0);
    } else {
        lemma_split_after(a, q.drop_last());
        assert((a + q).drop_last() =~= a + q.drop_last());
        assert((a + q).last() == q.last());
        let (done, part) = split_walk(q.drop_last());
        assert((split_walk(a).0 + done).push(part) =~= split_walk(a).0 + done.push(part));
    }
}

/// The parts of two texts with a slash between them are the parts of the one and, behind
/// them, the parts of the other.
pub proof fn parts_of_joined_texts(p: Seq<char>, q: Seq<char>)
    ensures
        path_parts(p + seq!['/'] + q) == path_parts(p) + path_parts(q),
{
    let a = p + seq!['/'];
    assert(a.drop_last() =~= p);
    assert(split_walk(a).0 =~= path_parts(p));
    lemma_split_after(a, q);
    let (done, part) = split_walk(q);
    assert((path_parts(p) + done).push(part) =~= path_parts(p) + done.push(part));
}

/// A text without slashes is one part, and none where it is empty.
pub proof fn text_without_slashes_is_one_part(t: Seq<char>)
    requires
        !t.contains('/'),
    ensures
        path_parts(t) == (if t.len() == 0 {
            Seq::<Seq<char>>::empty()
        } else {
            seq![t]
        }),
{
    lemma_no_slash(t);
    assert(Seq::<Seq<char>>::empty().push(t) =~= seq![t]);
}

proof fn lemma_no_slash(t: Seq<char>)
    requires
        !t.contains('/'),
    ensures
        split_walk(t) == (Seq::<Seq<char>>::empty(), t),
    decreases t.len(),
{
    if t.len() > 0 {
        let before = t.drop_last();
        assert forall|i: int| 0 <= i < before.len() implies before[i] != '/' by {
            assert(t.contains(t[i]));
        }
        lemma_no_slash(before);
        assert(t.contains(t[t.len() - 1]));
        assert(before.push(t.last()) =~= t);
    } else {
        assert(t =~= Seq::<char>::empty());
    }
}

/// A walk over a path starts before its first part, with nothing captured and nothing
/// matched yet.
pub proof fn walk_starts_at_the_front(path: Seq<char>)
    ensures
        PathView::start(path).parts == path_parts(path),
        PathView::start(path).cursor == (0usize, 0usize),
        PathView::start(path).params.entries.len() == 0,
        PathView::start(path).params.undo.len() == 0,
        !PathView::start(path).params.greedy,
        PathView::start(path).matched_parts.len() == 0,
        !PathView::start(path).once_ended,
        PathView::start(path).end_slash <==> path.len() > 0 && path[path.len() - 1] == '/',
        PathView::start(path).is_ended() <==> path_parts(path).len() == 0,
{
}

/// Every part of a path has characters, and none of them is a slash.
pub proof fn parts_are_slashless(path: Seq<char>, i: int)
    requires
        0 <= i < path_parts(path).len(),
    ensures
        path_parts(path)[i].len() > 0,
        !path_parts(path)[i].contains('/'),
{
    lemma_walk_slashless(path);
}

proof fn lemma_walk_slashless(path: Seq<char>)
    ensures
        forall|i: int|
            0 <= i < split_walk(path).0.len() ==> (#[trigger] split_walk(path).0[i]).len() > 0
                && !split_walk(path).0[i].contains('/'),
        !split_walk(path).1.contains('/'),
    decreases path.len(),
{
    if path.len() > 0 {
        lemma_walk_slashless(path.drop_last());
        let part = split_walk(path.drop_last()).1;
        if path.last() != '/' {
            let more = part.push(path.last());
            assert forall|i: int| 0 <= i < more.len() implies more[i] != '/' by {
                if i < part.len() {
                    assert(part.contains(part[i]));
                }
            }
        }
    }
}

/// A literal text as patterns write it: each brace twice.
pub open spec fn doubled(t: Seq<char>) -> Seq<char>
    decreases t.len(),
{
    if t.len() == 0 {
        t
    } else if t[0] == '{' || t[0] == '}' {
        seq![t[0], t[0]] + doubled(t.skip(1))
    } else {
        seq![t[0]] + doubled(t.skip(1))
    }
}

/// A text without braces is written as it is.
pub proof fn text_without_braces_is_written_as_it_is(t: Seq<char>)
    requires
        no_braces(t),
    ensures
        doubled(t) == t,
    decreases t.len(),
{
    if t.len() > 0 {
        assert(no_braces(t.skip(1)));
        text_without_braces_is_written_as_it_is(t.skip(1));
        assert(seq![t[0]] + t.skip(1) =~= t);
    }
}

proof fn lemma_doubled_slashless(t: Seq<char>)
    requires
        !t.contains('/'),
    ensures
        !doubled(t).contains('/'),
        doubled(t).len() >= t.len(),
        t.len() > 0 ==> doubled(t)[0] == t[0],
        t.len() > 0 && t[0] == '{' ==> doubled(t).len() > 1 && doubled(t)[1] == '{',
    decreases t.len(),
{
    if t.len() > 0 {
        let rest = t.skip(1);
        assert(t.contains(t[0]));
        assert forall|i: int| 0 <= i < rest.len() implies rest[i] != '/' by {
            assert(t.contains(t[i + 1]));
        }
        lemma_doubled_slashless(rest);
        let d = doubled(rest);
        assert forall|i: int| 0 <= i < doubled(t).len() implies doubled(t)[i] != '/' by {
            if i >= doubled(t).len() - d.len() {
                assert(d.contains(d[i - (doubled(t).len() - d.len())]));
            }
        }
    }
}

proof fn lemma_more_text(before: Seq<PieceView>, x: Seq<char>, t: Seq<char>, rest: Seq<char>)
    ensures
        pieces_from(before.push(PieceView::Text(x)), doubled(t) + rest) == pieces_from(
            before.push(PieceView::Text(x + t)),
            rest,
        ),
    decreases t.len(),
{
    if t.len() == 0 {
        assert(doubled(t) + rest =~= rest);
        assert(x + t =~= x);
    } else {
        let c = t[0];
        let s = doubled(t) + rest;
        let now = before.push(PieceView::Text(x));
        let more = x + seq![c];
        assert(with_piece(now, PieceView::Text(seq![c])) =~= before.push(PieceView::Text(more)));
        lemma_more_text(before, more, t.skip(1), rest);
        assert(more + t.skip(1) =~= x + t);
        if c == '{' || c == '}' {
            assert(s[0] == c && s[1] == c);
            assert(s.skip(2) =~= doubled(t.skip(1)) + rest);
        } else {
            assert(s[0] == c);
            assert(s.skip(1) =~= doubled(t.skip(1)) + rest);
        }
    }
}

proof fn lemma_text_pieces(before: Seq<PieceView>, t: Seq<char>, rest: Seq<char>)
    requires
        before.len() == 0 || !(before.last() is Text),
    ensures
        pieces_from(before, doubled(t) + rest) == pieces_from(
            if t.len() == 0 {
                before
            } else {
                before.push(PieceView::Text(t))
            },
            rest,
        ),
{
    if t.len() == 0 {
        assert(doubled(t) + rest =~= rest);
    } else {
        let c = t[0];
        let s = doubled(t) + rest;
        assert(with_piece(before, PieceView::Text(seq![c])) =~= before.push(
            PieceView::Text(seq![c]),
        ));
        lemma_more_text(before, seq![c], t.skip(1), rest);
        assert(seq![c] + t.skip(1) =~= t);
        if c == '{' || c == '}' {
            assert(s[0] == c && s[1] == c);
            assert(s.skip(2) =~= doubled(t.skip(1)) + rest);
        } else {
            assert(s[0] == c);
            assert(s.skip(1) =~= doubled(t.skip(1)) + rest);
        }
    }
}

proof fn lemma_first_brace_at(inner: Seq<char>, rest: Seq<char>)
    requires
        no_braces(inner),
        rest.len() > 0 ==> rest[0] == '{' || rest[0] == '}',
    ensures
        first_brace(inner + rest) == inner.len(),
    decreases inner.len(),
{
    if inner.len() == 0 {
        assert(inner + rest =~= rest);
    } else {
        assert(no_braces(inner.skip(1)));
        lemma_first_brace_at(inner.skip(1), rest);
        assert((inner + rest).skip(1) =~= inner.skip(1) + rest);
    }
}

proof fn lemma_param_pieces(
    before: Seq<PieceView>,
    inner: Seq<char>,
    piece: PieceView,
    rest: Seq<char>,
)
    requires
        no_braces(inner),
        inner.len() > 0,
        parameter(inner) == Some(piece),
        !(piece is Text),
    ensures
        pieces_from(before, seq!['{'] + inner + seq!['}'] + rest) == pieces_from(
            before.push(piece),
            rest,
        ),
{
    let s = seq!['{'] + inner + seq!['}'] + rest;
    let tail = seq!['}'] + rest;
    assert(s.skip(1) =~= inner + tail);
    lemma_first_brace_at(inner, tail);
    let end = inner.len() as int + 1;
    assert(s[1] == inner[0]);
    assert(s[end] == '}');
    assert(s.subrange(1, end) =~= inner);
    assert(s.skip(end + 1) =~= rest);
    assert(with_piece(before, piece) =~= before.push(piece));
}

proof fn lemma_single_wisp(pattern: Seq<char>, wisp: WispView)
    requires
        !pattern.contains('/'),
        pattern.len() > 0,
        parsed_segment(pattern) == Some(wisp),
    ensures
        parsed(pattern) == Some(seq![wisp]),
{
    text_without_slashes_is_one_part(pattern);
    let parts = path_parts(pattern);
    assert(parts[0] == pattern);
    assert(parsed_segments(parts, 0) == Some(Seq::<WispView>::empty()));
    assert(Seq::<WispView>::empty().push(wisp) =~= seq![wisp]);
    assert(parsed_segments(parts, 1) == Some(seq![wisp]));
}

/// Whether a walk stands in front of a part, or behind the last, and no part is empty.
pub open spec fn between_parts(path: PathView) -> bool {
    &&& path.cursor.1 == 0
    &&& path.cursor.0 <= path.parts.len() <= usize::MAX
    &&& forall|i: int| 0 <= i < path.parts.len() ==> (#[trigger] path.parts[i]).len() > 0
}

proof fn lemma_pick_between(path: PathView)
    requires
        between_parts(path),
    ensures
        path.cursor.0 < path.parts.len() ==> path.pick() == Some(path.parts[path.cursor.0 as int])
            && next_row(path) == path.cursor.0,
        path.cursor.0 == path.parts.len() ==> path.pick() is None,
        remaining(path) == path.parts.skip(path.cursor.0 as int),
{
    let row = path.cursor.0 as int;
    if row < path.parts.len() {
        assert(path.parts[row].skip(0) =~= path.parts[row]);
        assert(seq![path.parts[row]] + path.parts.skip(row + 1) =~= path.parts.skip(row));
    } else {
        assert(path.parts.skip(row) =~= Seq::<Seq<char>>::empty());
    }
}

proof fn lemma_single_step(wisp: WispView, path: PathView)
    ensures
        matching(seq![wisp], path) == match step(wisp, path) {
            Some(next) => (true, next),
            None => (false, path),
        },
{
    let wisps = seq![wisp];
    assert(wisps[0] == wisp);
    match step(wisp, path) {
        Some(next) => {
            assert(walked(wisps, 1, next) == (true, next));
        },
        None => {
            assert(matching(wisps, path).1 =~= path);
        },
    }
}

/// The world after a part was matched: the walk stands behind it.
pub open spec fn past_part(w: World, params: ParamsView, shown: Seq<char>) -> World {
    World {
        path: PathView {
            cursor: ((w.path.cursor.0 + 1) as usize, 0),
            params,
            matched_parts: w.path.matched_parts.push(shown),
            ..w.path
        },
        ..w
    }
}

/// A literal pattern passes the requests whose next part is that text, walks over that part,
/// and captures nothing. All others it fails, and then changes nothing. Each brace of the text
/// is written twice.
pub proof fn literal_takes_its_text(
    filter: PathFilter,
    t: Seq<char>,
    w: World,
    verdict: Verdict,
    after: World,
)
    requires
        t.len() > 0,
        !t.contains('/'),
        filter.pattern() == doubled(t),
        between_parts(w.path),
    ensures
        evaluated(filter, w, verdict, after) <==> if w.path.cursor.0 < w.path.parts.len()
            && w.path.parts[w.path.cursor.0 as int] == t {
            verdict is Pass && after == past_part(w, w.path.params, t)
        } else {
            verdict is Fail && after == w
        },
        filter.segment() == Some(t),
{
    let pattern = doubled(t);
    lemma_doubled_slashless(t);
    lemma_text_pieces(seq![], t, seq![]);
    assert(pattern + Seq::<char>::empty() =~= pattern);
    let pieces = Seq::<PieceView>::empty().push(PieceView::Text(t));
    assert(pieces_from(seq![], pattern) == Some(pieces));
    if pattern.len() >= 2 && pattern[0] == '{' {
        assert(pattern[1] == '{');
        assert(rest_marks(pattern.subrange(1, pattern.len() - 1)) == 0);
    }
    assert(rest_parameter(pattern) is None);
    let wisp = WispView::Const(t);
    assert(parsed_segment(pattern) == Some(wisp));
    lemma_single_wisp(pattern, wisp);
    lemma_pick_between(w.path);
    lemma_single_step(wisp, w.path);
    assert(seq![wisp][0] == wisp);
}

proof fn lemma_one_parameter(
    filter: PathFilter,
    a: Seq<char>,
    inner: Seq<char>,
    piece: PieceView,
    name: Seq<char>,
    b: Seq<char>,
    w: World,
    verdict: Verdict,
    after: World,
)
    requires
        !a.contains('/'),
        !b.contains('/'),
        !inner.contains('/'),
        no_braces(inner),
        inner.len() > 0,
        inner[0] != '*',
        parameter(inner) == Some(piece),
        piece == PieceView::Any(name) || exists|min: nat, max: Option<nat>|
            piece == PieceView::Num(name, min, max),
        filter.pattern() == doubled(a) + seq!['{'] + inner + seq!['}'] + doubled(b),
        between_parts(w.path),
    ensures
        evaluated(filter, w, verdict, after) <==> if w.path.cursor.0 < w.path.parts.len()
            && framed(w.path.parts[w.path.cursor.0 as int], a, b) && piece_takes(
            piece,
            inside(w.path.parts[w.path.cursor.0 as int], a, b),
        ) {
            verdict is Pass && after == past_part(
                w,
                w.path.params.inserted(
                    name,
                    inside(w.path.parts[w.path.cursor.0 as int], a, b),
                ),
                a + seq!['{'] + name + seq!['}'] + b,
            )
        } else {
            verdict is Fail && after == w
        },
        filter.segment() is None,
{
    let pattern = doubled(a) + seq!['{'] + inner + seq!['}'] + doubled(b);
    lemma_doubled_slashless(a);
    lemma_doubled_slashless(b);
    assert(!pattern.contains('/')) by {
        assert forall|i: int| 0 <= i < pattern.len() implies pattern[i] != '/' by {
            let n = doubled(a).len() as int;
            let m = n + 1 + inner.len();
            if i < n {
                assert(doubled(a).contains(doubled(a)[i]));
            } else if n < i < m {
                assert(inner.contains(inner[i - n - 1]));
            } else if i > m {
                assert(doubled(b).contains(doubled(b)[i - m - 1]));
            }
        }
    }
    // The pieces that the segment is read into.
    let none = Seq::<PieceView>::empty();
    let front = if a.len() == 0 {
        none
    } else {
        none.push(PieceView::Text(a))
    };
    let middle = front.push(piece);
    let pieces = if b.len() == 0 {
        middle
    } else {
        middle.push(PieceView::Text(b))
    };
    let behind = seq!['{'] + inner + seq!['}'] + doubled(b);
    assert(pattern =~= doubled(a) + behind);
    lemma_text_pieces(none, a, behind);
    lemma_param_pieces(front, inner, piece, doubled(b));
    lemma_text_pieces(middle, b, seq![]);
    assert(doubled(b) + Seq::<char>::empty() =~= doubled(b));
    assert(pieces_from(none, pattern) == Some(pieces));
    if pattern[0] == '{' {
        if a.len() > 0 {
            assert(pattern[1] == doubled(a)[1]);
        } else {
            assert(pattern[1] == inner[0]);
        }
        assert(rest_marks(pattern.subrange(1, pattern.len() - 1)) == 0);
    }
    assert(rest_parameter(pattern) is None);
    let wisp = WispView::Mixed(pieces);
    assert(parsed_segment(pattern) == Some(wisp));
    lemma_single_wisp(pattern, wisp);
    assert(seq![wisp][0] == wisp);
    lemma_pick_between(w.path);
    lemma_single_step(wisp, w.path);
    if w.path.cursor.0 < w.path.parts.len() {
        let segment = w.path.parts[w.path.cursor.0 as int];
        lemma_framed_cut(a, piece, b, pieces, segment);
        if let Some(values) = cut(pieces, 0, segment) {
            lemma_framed_capture(w.path.params, a, piece, name, b, pieces, values);
        }
    }
}

/// Whether a text starts with `a` and ends with `b`, one behind the other.
pub open spec fn framed(text: Seq<char>, a: Seq<char>, b: Seq<char>) -> bool {
    text.len() >= a.len() + b.len() && text.take(a.len() as int) == a && text.skip(
        text.len() - b.len(),
    ) == b
}

/// What stands between `a` and `b` in a text that they frame.
pub open spec fn inside(text: Seq<char>, a: Seq<char>, b: Seq<char>) -> Seq<char> {
    text.subrange(a.len() as int, text.len() - b.len())
}

/// A piece with the literal texts before and behind it.
spec fn framed_pieces(a: Seq<char>, piece: PieceView, b: Seq<char>) -> Seq<PieceView> {
    let none = Seq::<PieceView>::empty();
    let front = if a.len() == 0 {
        none
    } else {
        none.push(PieceView::Text(a))
    };
    if b.len() == 0 {
        front.push(piece)
    } else {
        front.push(piece).push(PieceView::Text(b))
    }
}

/// The place of the piece behind the text before it.
spec fn place(a: Seq<char>) -> int {
    if a.len() == 0 {
        0
    } else {
        1
    }
}

proof fn lemma_framed_cut(
    a: Seq<char>,
    piece: PieceView,
    b: Seq<char>,
    pieces: Seq<PieceView>,
    segment: Seq<char>,
)
    requires
        !(piece is Text),
        pieces == framed_pieces(a, piece, b),
    ensures
        cut(pieces, 0, segment) is Some <==> framed(segment, a, b) && piece_takes(
            piece,
            inside(segment, a, b),
        ),
        cut(pieces, 0, segment) matches Some(values) ==> values.len() == pieces.len()
            && values[place(a)] == inside(segment, a, b),
{
    reveal_with_fuel(strung, 4);
    let at = place(a);
    assert(pieces[at] == piece);
    if let Some(values) = cut(pieces, 0, segment) {
        cut_deals_out_the_segment(pieces, 0, segment);
        assert(piece_takes(pieces[0 + 0int], values[0]));
        assert(piece_takes(pieces[0 + at], values[at]));
        if pieces.len() > 1 {
            assert(piece_takes(pieces[0 + 1int], values[1]));
        }
        if pieces.len() > 2 {
            assert(piece_takes(pieces[0 + 2int], values[2]));
        }
        let v = values[at];
        assert(values.drop_first().len() == values.len() - 1);
        assert(segment =~= a + v + b);
        assert(segment.take(a.len() as int) =~= a);
        assert(segment.skip(segment.len() - b.len()) =~= b);
        assert(inside(segment, a, b) =~= v);
    }
    if framed(segment, a, b) && piece_takes(piece, inside(segment, a, b)) {
        let v = inside(segment, a, b);
        let none = Seq::<Seq<char>>::empty();
        let front = if a.len() == 0 {
            none
        } else {
            none.push(a)
        };
        let values = if b.len() == 0 {
            front.push(v)
        } else {
            front.push(v).push(b)
        };
        assert(segment =~= segment.take(a.len() as int) + v + segment.skip(
            segment.len() - b.len(),
        ));
        assert(segment =~= a + v + b);
        assert(values.drop_first().len() == values.len() - 1);
        assert(strung(values) =~= segment);
        assert(deals_out(pieces, 0, segment, values));
        cut_is_found_where_there_is_one(pieces, 0, segment, values);
    }
}

proof fn lemma_framed_capture(
    params: ParamsView,
    a: Seq<char>,
    piece: PieceView,
    name: Seq<char>,
    b: Seq<char>,
    pieces: Seq<PieceView>,
    values: Seq<Seq<char>>,
)
    requires
        piece == PieceView::Any(name) || exists|min: nat, max: Option<nat>|
            piece == PieceView::Num(name, min, max),
        pieces == framed_pieces(a, piece, b),
    ensures
        captured(params, pieces, values, pieces.len() as int) == params.inserted(
            name,
            values[place(a)],
        ),
        shown(pieces, pieces.len() as int) == a + seq!['{'] + name + seq!['}'] + b,
{
    reveal_with_fuel(captured, 4);
    reveal_with_fuel(shown, 4);
    assert(shown(pieces, pieces.len() as int) =~= a + seq!['{'] + name + seq!['}'] + b);
}

/// Whether a text can be the name of a parameter.
pub open spec fn is_name(name: Seq<char>) -> bool {
    &&& name.len() > 0
    &&& name[0] != '*'
    &&& forall|i: int|
        0 <= i < name.len() ==> #[trigger] name[i] != '{' && name[i] != '}' && name[i] != ':'
            && name[i] != '|' && name[i] != '/'
}

proof fn lemma_name_end_here(name: Seq<char>, rest: Seq<char>)
    requires
        forall|i: int| 0 <= i < name.len() ==> #[trigger] name[i] != ':' && name[i] != '|',
        rest.len() > 0 ==> rest[0] == ':' || rest[0] == '|',
    ensures
        name_end(name + rest) == name.len(),
    decreases name.len(),
{
    if name.len() == 0 {
        assert(name + rest =~= rest);
    } else {
        lemma_name_end_here(name.skip(1), rest);
        assert((name + rest).skip(1) =~= name.skip(1) + rest);
    }
}

/// A parameter between two literal texts, each of which may be empty, passes the requests
/// whose next part starts with the one text, ends with the other and has something in
/// between. That it captures, whatever it is. All other requests it fails, and then changes
/// nothing.
pub proof fn parameter_takes_what_stands_between(
    filter: PathFilter,
    a: Seq<char>,
    name: Seq<char>,
    b: Seq<char>,
    w: World,
    verdict: Verdict,
    after: World,
)
    requires
        !a.contains('/'),
        !b.contains('/'),
        is_name(name),
        filter.pattern() == doubled(a) + seq!['{'] + name + seq!['}'] + doubled(b),
        between_parts(w.path),
    ensures
        evaluated(filter, w, verdict, after) <==> if w.path.cursor.0 < w.path.parts.len()
            && framed(w.path.parts[w.path.cursor.0 as int], a, b)
            && w.path.parts[w.path.cursor.0 as int].len() > a.len() + b.len() {
            verdict is Pass && after == past_part(
                w,
                w.path.params.inserted(
                    name,
                    inside(w.path.parts[w.path.cursor.0 as int], a, b),
                ),
                a + seq!['{'] + name + seq!['}'] + b,
            )
        } else {
            verdict is Fail && after == w
        },
        filter.segment() is None,
{
    lemma_name_end_here(name, seq![]);
    assert(name + Seq::<char>::empty() =~= name);
    assert(!name.contains('/'));
    assert(parameter(name) == Some(PieceView::Any(name)));
    lemma_one_parameter(filter, a, name, PieceView::Any(name), name, b, w, verdict, after);
}

/// A parameter for digits between two literal texts passes the requests whose next part
/// starts with the one text, ends with the other, and has nothing but digits in between, at
/// least one and as many as the constraint allows. All other requests it fails.
pub proof fn digits_parameter_takes_digits(
    filter: PathFilter,
    a: Seq<char>,
    name: Seq<char>,
    constraint: Seq<char>,
    min: nat,
    max: Option<nat>,
    b: Seq<char>,
    w: World,
    verdict: Verdict,
    after: World,
)
    requires
        !a.contains('/'),
        !b.contains('/'),
        is_name(name),
        no_braces(constraint),
        !constraint.contains('/'),
        num_widths(constraint) == Some((min, max)),
        filter.pattern() == doubled(a) + seq!['{'] + (name + seq![':'] + constraint) + seq!['}']
            + doubled(b),
        between_parts(w.path),
    ensures
        evaluated(filter, w, verdict, after) <==> if w.path.cursor.0 < w.path.parts.len()
            && framed(w.path.parts[w.path.cursor.0 as int], a, b) && all_digits(
            inside(w.path.parts[w.path.cursor.0 as int], a, b),
        ) && inside(w.path.parts[w.path.cursor.0 as int], a, b).len() >= min && (
        max matches Some(most) ==> inside(w.path.parts[w.path.cursor.0 as int], a, b).len()
            <= most) {
            verdict is Pass && after == past_part(
                w,
                w.path.params.inserted(
                    name,
                    inside(w.path.parts[w.path.cursor.0 as int], a, b),
                ),
                a + seq!['{'] + name + seq!['}'] + b,
            )
        } else {
            verdict is Fail && after == w
        },
        filter.segment() is None,
{
    let inner = name + seq![':'] + constraint;
    let tail = seq![':'] + constraint;
    assert(inner =~= name + tail);
    lemma_name_end_here(name, tail);
    assert(inner[name.len() as int] == ':');
    assert(inner.skip(name.len() as int + 1) =~= constraint);
    assert(inner.take(name.len() as int) =~= name);
    assert(inner[0] == name[0]);
    assert(no_braces(inner)) by {
        assert forall|i: int| 0 <= i < inner.len() implies #[trigger] inner[i] != '{' && inner[i]
            != '}' by {
            if i < name.len() {
                assert(inner[i] == name[i]);
            } else if i > name.len() {
                assert(inner[i] == constraint[i - name.len() - 1]);
            }
        }
    }
    assert(!inner.contains('/')) by {
        assert forall|i: int| 0 <= i < inner.len() implies inner[i] != '/' by {
            if i < name.len() {
                assert(inner[i] == name[i]);
            } else if i > name.len() {
                assert(constraint.contains(constraint[i - name.len() - 1]));
            }
        }
    }
    let piece = PieceView::Num(name, min, max);
    assert(parameter(inner) == Some(piece));
    lemma_one_parameter(filter, a, inner, piece, name, b, w, verdict, after);
    if w.path.cursor.0 < w.path.parts.len() {
        let text = inside(w.path.parts[w.path.cursor.0 as int], a, b);
        assert(all_digits(text) ==> forall|i: int|
            0 <= i < text.len() ==> is_digit(#[trigger] text[i]));
    }
}

/// Whether a text is made of decimal digits, at least one.
pub open spec fn all_digits(s: Seq<char>) -> bool {
    s.len() > 0 && forall|i: int| 0 <= i < s.len() ==> '0' <= #[trigger] s[i] && s[i] <= '9'
}

/// Segments with slashes between them.
pub open spec fn slashed(segments: Seq<Seq<char>>) -> Seq<char>
    decreases segments.len(),
{
    if segments.len() == 0 {
        seq![]
    } else if segments.len() == 1 {
        segments[0]
    } else {
        slashed(segments.drop_last()) + seq!['/'] + segments.last()
    }
}

proof fn lemma_joined_is_slashed(segments: Seq<Seq<char>>, n: int)
    requires
        0 <= n <= segments.len(),
    ensures
        joined(segments, n) == slashed(segments.take(n)),
    decreases n,
{
    let first = segments.take(n);
    if n > 1 {
        lemma_joined_is_slashed(segments, n - 1);
        assert(first.drop_last() =~= segments.take(n - 1));
        assert(joined(segments, n - 1).push('/') + segments[n - 1] =~= slashed(first));
    } else if n == 1 {
        assert(first[0] == segments[0]);
    }
}

/// How many parts a rest parameter with the given mark takes.
pub open spec fn mark_takes(mark: Seq<char>, n: nat) -> bool {
    if mark == seq!['*', '+'] {
        n > 0
    } else if mark == seq!['*', '?'] {
        n == 0 || n == 1
    } else {
        true
    }
}

/// A rest parameter takes all parts that are left: any number of them with the marks `**` and
/// `*`, at least one with `*+`, at most one with `*?`. Where it takes them, the walk is at the
/// end, and the parts are captured with slashes between them, and with one more behind them
/// where the path ends in a slash. Where it does not take them, nothing is changed.
pub proof fn rest_parameter_takes_all_that_is_left(
    filter: PathFilter,
    mark: Seq<char>,
    name: Seq<char>,
    w: World,
    verdict: Verdict,
    after: World,
)
    requires
        mark == seq!['*', '*'] || mark == seq!['*'] || mark == seq!['*', '+'] || mark == seq![
            '*',
            '?',
        ],
        is_name(name),
        mark.len() == 1 ==> name[0] != '+' && name[0] != '?',
        filter.pattern() == seq!['{'] + mark + name + seq!['}'],
        between_parts(w.path),
    ensures
        evaluated(filter, w, verdict, after) <==> ({
            let left = w.path.parts.skip(w.path.cursor.0 as int);
            let text = if w.path.end_slash && left.len() > 0 {
                slashed(left) + seq!['/']
            } else {
                slashed(left)
            };
            if mark_takes(mark, left.len()) {
                verdict is Pass && after == (World {
                    path: PathView {
                        cursor: (w.path.parts.len() as usize, 0),
                        params: ParamsView {
                            greedy: true,
                            ..w.path.params.inserted(name, text)
                        },
                        matched_parts: w.path.matched_parts.push(
                            seq!['{'] + name + seq!['}'],
                        ),
                        ..w.path
                    },
                    ..w
                })
            } else {
                verdict is Fail && after == w
            }
        }),
        filter.segment() is None,
{
    let pattern = seq!['{'] + mark + name + seq!['}'];
    let inner = mark + name;
    let left = w.path.parts.skip(w.path.cursor.0 as int);
    assert(pattern.subrange(1, pattern.len() - 1) =~= inner);
    assert(!pattern.contains('/')) by {
        assert forall|i: int| 0 <= i < pattern.len() implies pattern[i] != '/' by {
            if mark.len() < i < pattern.len() - 1 {
                assert(pattern[i] == name[i - mark.len() - 1]);
            }
        }
    }
    assert forall|i: int| 0 <= i < inner.len() implies #[trigger] inner[i] != '{' && inner[i] != '}'
        && inner[i] != ':' && inner[i] != '|' by {
        if i >= mark.len() {
            assert(inner[i] == name[i - mark.len()]);
        }
    }
    lemma_name_end_here(inner, seq![]);
    lemma_first_brace_at(inner, seq![]);
    assert(inner + Seq::<char>::empty() =~= inner);
    assert(rest_marks(inner) == mark.len());
    assert(inner.skip(mark.len() as int) =~= name);
    let kind = if mark == seq!['*', '+'] {
        RestKind::OneOrMore
    } else if mark == seq!['*', '?'] {
        RestKind::AtMostOne
    } else {
        RestKind::Any
    };
    assert(mark.len() == 2 ==> inner[1] == mark[1]);
    let wisp = WispView::Rest(kind, name);
    assert(mark == seq!['*', '+'] ==> mark[1] == '+');
    assert(mark == seq!['*', '?'] ==> mark[1] == '?');
    assert(mark == seq!['*', '*'] ==> mark[1] == '*');
    assert(rest_parameter(pattern) == Some(wisp));
    assert(parsed_segment(pattern) == Some(wisp));
    lemma_single_wisp(pattern, wisp);
    lemma_pick_between(w.path);
    lemma_single_step(wisp, w.path);
    assert(seq![wisp][0] == wisp);
    lemma_joined_is_slashed(left, left.len() as int);
    assert(left.take(left.len() as int) =~= left);
    assert(slashed(left).push('/') =~= slashed(left) + seq!['/']);
    assert(label(wisp) =~= seq!['{'] + name + seq!['}']);
}

/// Whether a text has no slash at its front, and no two slashes side by side.
pub open spec fn clean(p: Seq<char>) -> bool {
    &&& p.len() > 0 ==> p[0] != '/'
    &&& forall|i: int| 0 < i < p.len() && #[trigger] p[i] == '/' ==> p[i - 1] != '/'
}

proof fn lemma_clean_walk(p: Seq<char>)
    requires
        clean(p),
        p.len() > 0,
    ensures
        ({
            let (done, part) = split_walk(p);
            if p.last() == '/' {
                part.len() == 0 && done.len() > 0 && p == slashed(done) + seq!['/']
            } else {
                part.len() > 0 && p == slashed(done.push(part))
            }
        }),
    decreases p.len(),
{
    let before = p.drop_last();
    let c = p.last();
    assert(clean(before)) by {
        assert forall|i: int| 0 < i < before.len() && #[trigger] before[i] == '/' implies before[i
            - 1] != '/' by {
            assert(p[i] == '/');
        }
    }
    if before.len() == 0 {
        assert(split_walk(before) == (Seq::<Seq<char>>::empty(), Seq::<char>::empty()));
        let part = Seq::<char>::empty().push(c);
        assert(Seq::<Seq<char>>::empty().push(part)[0] == part);
        assert(p =~= part);
    } else {
        lemma_clean_walk(before);
        let (done, part) = split_walk(before);
        assert(p =~= before + seq![c]);
        if c == '/' {
            assert(p[p.len() - 1] == '/');
            assert(before.last() == p[p.len() - 2]);
        } else if before.last() == '/' {
            let next = Seq::<char>::empty().push(c);
            let more = done.push(next);
            assert(part.push(c) =~= next);
            assert(more.drop_last() =~= done);
            assert(more.len() > 1);
            assert(slashed(more) =~= before + seq![c]);
        } else {
            let more = done.push(part.push(c));
            assert(more.drop_last() =~= done);
            assert(done.push(part).drop_last() =~= done);
            assert(slashed(more) =~= slashed(done.push(part)) + seq![c]);
        }
    }
}

/// A rest parameter that takes any number of parts, at the front of a walk over a path without
/// needless slashes, captures the path as it is written.
pub proof fn rest_parameter_captures_the_path(
    filter: PathFilter,
    mark: Seq<char>,
    name: Seq<char>,
    path: Seq<char>,
    w: World,
    verdict: Verdict,
    after: World,
)
    requires
        mark == seq!['*', '*'] || mark == seq!['*'],
        is_name(name),
        mark.len() == 1 ==> name[0] != '+' && name[0] != '?',
        filter.pattern() == seq!['{'] + mark + name + seq!['}'],
        clean(path),
        path_parts(path).len() <= usize::MAX,
        w.path == PathView::start(path),
        evaluated(filter, w, verdict, after),
    ensures
        verdict is Pass,
        after.path.cursor.0 == path_parts(path).len(),
        after.path.params.entries == seq![(name, path)],
        after.path.params.greedy,
{
    let parts = path_parts(path);
    assert forall|i: int| 0 <= i < parts.len() implies (#[trigger] parts[i]).len() > 0 by {
        parts_are_slashless(path, i);
    }
    rest_parameter_takes_all_that_is_left(filter, mark, name, w, verdict, after);
    assert(parts.skip(0) =~= parts);
    assert(mark != seq!['*', '+'] && mark != seq!['*', '?']) by {
        assert(mark.len() == 2 ==> mark[1] == '*');
        assert(seq!['*', '+'][1] == '+');
        assert(seq!['*', '?'][1] == '?');
    }
    if path.len() > 0 {
        lemma_clean_walk(path);
    } else {
        assert(slashed(parts) =~= path);
    }
    assert(Seq::<(Seq<char>, Seq<char>)>::empty().push((name, path)) =~= seq![(name, path)]);
}

proof fn lemma_walked_on(x: Seq<WispView>, y: Seq<WispView>, from: int, path: PathView)
    requires
        0 <= from <= x.len(),
    ensures
        walked(x + y, from, path) == (if walked(x, from, path).0 {
            walked(x + y, x.len() as int, walked(x, from, path).1)
        } else {
            walked(x, from, path)
        }),
    decreases x.len() - from,
{
    if from < x.len() {
        assert((x + y)[from] == x[from]);
        if let Some(next) = step(x[from], path) {
            lemma_walked_on(x, y, from + 1, next);
        }
    }
}

proof fn lemma_walked_second(x: Seq<WispView>, y: Seq<WispView>, from: int, path: PathView)
    requires
        0 <= from <= y.len(),
    ensures
        walked(x + y, x.len() + from, path) == walked(y, from, path),
    decreases y.len() - from,
{
    if from < y.len() {
        assert((x + y)[x.len() + from] == y[from]);
        if let Some(next) = step(y[from], path) {
            lemma_walked_second(x, y, from + 1, next);
        }
    }
}

proof fn lemma_parsed_on(a: Seq<Seq<char>>, b: Seq<Seq<char>>, n: int)
    requires
        0 <= n <= b.len(),
        parsed_segments(a, a.len() as int) is Some,
        parsed_segments(b, n) is Some,
        n > 0 ==> {
            let x = parsed_segments(a, a.len() as int)->0;
            x.len() == 0 || !(x.last() is Rest)
        },
    ensures
        parsed_segments(a + b, a.len() + n) == Some(
            parsed_segments(a, a.len() as int)->0 + parsed_segments(b, n)->0,
        ),
    decreases n,
{
    let all = a + b;
    let x = parsed_segments(a, a.len() as int)->0;
    lemma_parsed_front(a, b, a.len() as int);
    if n == 0 {
        assert(x + Seq::<WispView>::empty() =~= x);
    } else {
        lemma_parsed_on(a, b, n - 1);
        let y = parsed_segments(b, n - 1)->0;
        assert(all[a.len() + n - 1] == b[n - 1]);
        let wisp = parsed_segment(b[n - 1])->0;
        assert((x + y).push(wisp) =~= x + y.push(wisp));
        if y.len() > 0 {
            assert((x + y).last() == y.last());
        } else {
            assert(x + y =~= x);
        }
    }
}

proof fn lemma_parsed_front(a: Seq<Seq<char>>, b: Seq<Seq<char>>, n: int)
    requires
        0 <= n <= a.len(),
    ensures
        parsed_segments(a + b, n) == parsed_segments(a, n),
    decreases n,
{
    if n > 0 {
        lemma_parsed_front(a, b, n - 1);
        assert((a + b)[n - 1] == a[n - 1]);
    }
}

/// Where one well-formed pattern and, behind a slash, another stand in one pattern, that passes
/// the requests that the one passes and, from where that has left the walk, the other, and
/// leaves what that leaves. All other requests it fails. This leaves out the first patterns
/// that end in a rest parameter, behind which nothing can stand.
pub proof fn patterns_match_one_behind_the_other(
    first: PathFilter,
    second: PathFilter,
    both: PathFilter,
    w: World,
)
    requires
        both.pattern() == first.pattern() + seq!['/'] + second.pattern(),
        first.meaning() is Some,
        second.meaning() is Some,
        first.meaning()->0.len() > 0 ==> !(first.meaning()->0.last() is Rest),
    ensures
        both.meaning() is Some,
        first.meaning()->0.len() > 0 ==> both.segment() == first.segment(),
        forall|after: World| #[trigger]
            evaluated(both, w, Verdict::Pass, after) <==> exists|mid: World| #[trigger]
                evaluated(first, w, Verdict::Pass, mid) && evaluated(
                    second,
                    mid,
                    Verdict::Pass,
                    after,
                ),
        (exists|after: World| #[trigger] evaluated(both, w, Verdict::Fail, after)) <==> !exists|
            after: World,
        | #[trigger]
            evaluated(both, w, Verdict::Pass, after),
{
    let p = path_parts(first.pattern());
    let q = path_parts(second.pattern());
    let x = first.meaning()->0;
    let y = second.meaning()->0;
    parts_of_joined_texts(first.pattern(), second.pattern());
    lemma_parsed_on(p, q, q.len() as int);
    let all = both.meaning()->0;
    assert(all == x + y);
    assert(x.len() > 0 ==> all[0] == x[0]);
    lemma_walked_on(x, y, 0, w.path);
    let (passed, left) = walked(x, 0, w.path);
    let mid = World { path: left, ..w };
    lemma_walked_second(x, y, 0, left);
    assert(matching(x, w.path).0 == passed);
    assert(evaluated(first, w, Verdict::Pass, mid) <==> passed);
    let (matched, end) = matching(all, w.path);
    let last = World { path: end, ..w };
    if matched {
        assert(evaluated(both, w, Verdict::Pass, last));
        assert(evaluated(second, mid, Verdict::Pass, last));
    } else {
        assert(evaluated(both, w, Verdict::Fail, last));
    }
    assert forall|after: World| #[trigger] evaluated(both, w, Verdict::Pass, after) <==> exists|
        m: World,
    | #[trigger]
        evaluated(first, w, Verdict::Pass, m) && evaluated(second, m, Verdict::Pass, after) by {
        if evaluated(both, w, Verdict::Pass, after) {
            assert(after == last);
            assert(evaluated(first, w, Verdict::Pass, mid));
        }
        if exists|m: World| #[trigger]
            evaluated(first, w, Verdict::Pass, m) && evaluated(second, m, Verdict::Pass, after) {
            let m = choose|m: World| #[trigger]
                evaluated(first, w, Verdict::Pass, m) && evaluated(
                    second,
                    m,
                    Verdict::Pass,
                    after,
                );
            assert(m == mid);
        }
    }
}

/// A pattern that does not match leaves the request, the walk and the matched parts as they
/// were. A malformed pattern never matches, and changes nothing at all.
pub proof fn failed_pattern_moves_nothing(filter: PathFilter, w: World, after: World)
    requires
        evaluated(filter, w, Verdict::Fail, after),
    ensures
        after.req == w.req,
        after.asked == w.asked,
        after.path.cursor == w.path.cursor,
        after.path.matched_parts == w.path.matched_parts,
        after.path.parts == w.path.parts,
        after.path.end_slash == w.path.end_slash,
        after.path.once_ended == w.path.once_ended,
        filter.meaning() is None ==> after == w,
{
    if let Some(wisps) = filter.meaning() {
        lemma_walk_keeps_text(wisps, 0, w.path);
    }
}

proof fn lemma_walk_keeps_text(wisps: Seq<WispView>, from: int, path: PathView)
    ensures
        walked(wisps, from, path).1.parts == path.parts,
        walked(wisps, from, path).1.end_slash == path.end_slash,
        walked(wisps, from, path).1.once_ended == path.once_ended,
    decreases wisps.len() - from,
{
    if from < wisps.len() {
        if let Some(next) = step(wisps[from], path) {
            lemma_walk_keeps_text(wisps, from + 1, next);
        }
    }
}

/// A path filter shows the pattern that it was made of, and never waits.
pub proof fn path_filter_shows_its_pattern(filter: PathFilter)
    ensures
        filter.described() == InfoView::Path(filter.pattern()),
        filter.sync(),
        filter.valid(),
{
}

/// A filter whose pattern is malformed fails every request.
pub proof fn malformed_pattern_never_matches(
    filter: PathFilter,
    w: World,
    verdict: Verdict,
    after: World,
)
    requires
        parsed(filter.pattern()) is None,
    ensures
        evaluated(filter, w, verdict, after) <==> verdict is Fail && after == w,
{
}

/// Where several parameters stand in one segment, the first captures as much as it can so that
/// the others can still take the rest, and so on: what is captured differs from any other way to
/// deal the segment out by a longer capture at the first place where they differ.
pub proof fn earlier_parameters_take_more(
    pieces: Seq<PieceView>,
    from: int,
    text: Seq<char>,
    other: Seq<Seq<char>>,
)
    requires
        0 <= from <= pieces.len(),
        deals_out(pieces, from, text, other),
    ensures
        cut(pieces, from, text) matches Some(values) && (values == other || exists|k: int|
            0 <= k < other.len() && values.take(k) == other.take(k) && (#[trigger] values[k]).len()
                > other[k].len()),
    decreases pieces.len() - from, text.len() + 2,
{
    if from < pieces.len() {
        lemma_longest_takes_more(pieces, from, text, other, text.len() as int);
    } else {
        assert(other =~= Seq::<Seq<char>>::empty());
        assert(text =~= Seq::<char>::empty());
    }
}

proof fn lemma_longest_takes_more(
    pieces: Seq<PieceView>,
    from: int,
    text: Seq<char>,
    other: Seq<Seq<char>>,
    most: int,
)
    requires
        0 <= from < pieces.len(),
        deals_out(pieces, from, text, other),
        other[0].len() <= most <= text.len(),
    ensures
        longest_cut(pieces, from, text, most) matches Some(values) && (values == other || exists|
            k: int,
        |
            0 <= k < other.len() && values.take(k) == other.take(k) && (#[trigger] values[k]).len()
                > other[k].len()),
    decreases pieces.len() - from, most + 1,
{
    let n = other[0].len() as int;
    let rest = other.drop_first();
    assert(text.take(n) =~= other[0]);
    assert(text.skip(n) =~= strung(rest));
    if piece_takes(pieces[from], text.take(most)) && cut(
        pieces,
        from + 1,
        text.skip(most),
    ) is Some {
        let tail = cut(pieces, from + 1, text.skip(most))->0;
        let values = seq![text.take(most)] + tail;
        cut_deals_out_the_segment(pieces, from + 1, text.skip(most));
        if most > n {
            assert(values.take(0) =~= other.take(0));
            assert(values[0].len() > other[0].len());
        } else {
            lemma_rest_deals_out(pieces, from, text, other);
            earlier_parameters_take_more(pieces, from + 1, text.skip(n), rest);
            if tail == rest {
                assert(values =~= other);
            } else {
                let k = choose|k: int|
                    0 <= k < rest.len() && tail.take(k) == rest.take(k) && (
                    #[trigger] tail[k]).len() > rest[k].len();
                assert(values.take(k + 1) =~= seq![text.take(most)] + tail.take(k));
                assert(other.take(k + 1) =~= seq![other[0]] + rest.take(k));
                assert(values[k + 1] == tail[k]);
                assert(other[k + 1] == rest[k]);
            }
        }
    } else {
        if most == n {
            lemma_rest_deals_out(pieces, from, text, other);
            earlier_parameters_take_more(pieces, from + 1, text.skip(n), rest);
            assert(piece_takes(pieces[from + 0int], other[0]));
        }
        lemma_longest_takes_more(pieces, from, text, other, most - 1);
    }
}

/// Captures are made one behind the other, each parameter under its own name with what it took,
/// and literal texts capture nothing. In the matched path, a literal text is shown as it is, and
/// a parameter by its name in braces.
pub proof fn captures_are_made_one_by_one(
    params: ParamsView,
    pieces: Seq<PieceView>,
    values: Seq<Seq<char>>,
    n: int,
)
    requires
        0 <= n < pieces.len(),
    ensures
        captured(params, pieces, values, 0) == params,
        captured(params, pieces, values, n + 1) == match pieces[n] {
            PieceView::Text(_) => captured(params, pieces, values, n),
            PieceView::Any(name) => captured(params, pieces, values, n).inserted(name, values[n]),
            PieceView::Num(name, _, _) => captured(params, pieces, values, n).inserted(
                name,
                values[n],
            ),
        },
        shown(pieces, 0).len() == 0,
        shown(pieces, n + 1) == shown(pieces, n) + match pieces[n] {
            PieceView::Text(text) => text,
            PieceView::Any(name) => seq!['{'] + name + seq!['}'],
            PieceView::Num(name, _, _) => seq!['{'] + name + seq!['}'],
        },
{
}

/// A pattern of one segment, whatever its pieces are, passes the requests whose next part can be
/// dealt out to the pieces, and captures what each of them then takes, the earlier ones as much as
/// they can. All other requests it fails, and then changes nothing.
pub proof fn segment_captures_what_it_deals_out(
    filter: PathFilter,
    pieces: Seq<PieceView>,
    w: World,
    verdict: Verdict,
    after: World,
)
    requires
        filter.meaning() == Some(seq![WispView::Mixed(pieces)]),
        between_parts(w.path),
        evaluated(filter, w, verdict, after),
    ensures
        verdict !is Waits,
        verdict is Fail ==> after == w && (w.path.cursor.0 < w.path.parts.len() ==> forall|
            values: Seq<Seq<char>>,
        |
            !#[trigger] deals_out(pieces, 0, w.path.parts[w.path.cursor.0 as int], values)),
        verdict is Pass ==> w.path.cursor.0 < w.path.parts.len() && exists|values: Seq<Seq<char>>|
            #[trigger] deals_out(pieces, 0, w.path.parts[w.path.cursor.0 as int], values) && after
                == past_part(
                w,
                captured(w.path.params, pieces, values, pieces.len() as int),
                shown(pieces, pieces.len() as int),
            ) && forall|other: Seq<Seq<char>>| #[trigger]
                deals_out(pieces, 0, w.path.parts[w.path.cursor.0 as int], other) ==> values
                    == other || exists|k: int|
                    0 <= k < other.len() && values.take(k) == other.take(k) && (
                    #[trigger] values[k]).len() > other[k].len(),
{
    let wisp = WispView::Mixed(pieces);
    lemma_pick_between(w.path);
    lemma_single_step(wisp, w.path);
    if w.path.cursor.0 < w.path.parts.len() {
        let segment = w.path.parts[w.path.cursor.0 as int];
        match cut(pieces, 0, segment) {
            Some(values) => {
                cut_deals_out_the_segment(pieces, 0, segment);
                assert(deals_out(pieces, 0, segment, values));
                assert forall|other: Seq<Seq<char>>| #[trigger]
                    deals_out(pieces, 0, segment, other) implies values == other || exists|k: int|
                    0 <= k < other.len() && values.take(k) == other.take(k) && (
                    #[trigger] values[k]).len() > other[k].len() by {
                    earlier_parameters_take_more(pieces, 0, segment, other);
                }
            },
            None => {
                assert forall|values: Seq<Seq<char>>|
                    !#[trigger] deals_out(pieces, 0, segment, values) by {
                    if deals_out(pieces, 0, segment, values) {
                        cut_is_found_where_there_is_one(pieces, 0, segment, values);
                    }
                }
            },
        }
    }
}

/// A segment of a pattern is read from left to right: a literal text, each brace written twice, is
/// a piece, and so is a parameter in braces, wherever they stand.
pub proof fn segments_are_read_piece_by_piece(
    before: Seq<PieceView>,
    t: Seq<char>,
    name: Seq<char>,
    rest: Seq<char>,
)
    requires
        before.len() == 0 || !(before.last() is Text),
        t.len() > 0,
        is_name(name),
    ensures
        pieces_from(before, Seq::<char>::empty()) == Some(before),
        pieces_from(before, doubled(t) + rest) == pieces_from(
            before.push(PieceView::Text(t)),
            rest,
        ),
        pieces_from(before, seq!['{'] + name + seq!['}'] + rest) == pieces_from(
            before.push(PieceView::Any(name)),
            rest,
        ),
{
    lemma_text_pieces(before, t, rest);
    lemma_name_end_here(name, seq![]);
    assert(name + Seq::<char>::empty() =~= name);
    assert(no_braces(name));
    lemma_param_pieces(before, name, PieceView::Any(name), rest);
}

proof fn lemma_rest_deals_out(
    pieces: Seq<PieceView>,
    from: int,
    text: Seq<char>,
    other: Seq<Seq<char>>,
)
    requires
        0 <= from < pieces.len(),
        deals_out(pieces, from, text, other),
    ensures
        deals_out(pieces, from + 1, text.skip(other[0].len() as int), other.drop_first()),
{
    let rest = other.drop_first();
    assert(text.skip(other[0].len() as int) =~= strung(rest));
    assert forall|i: int| 0 <= i < rest.len() implies piece_takes(
        pieces[from + 1 + i],
        #[trigger] rest[i],
    ) by {
        assert(rest[i] == other[i + 1]);
        assert(pieces[from + (i + 1)] == pieces[from + 1 + i]);
    }
}

/// Two parameters with a literal text between them pass the requests whose next part has that
/// text somewhere with something before and behind it. The first captures what stands before the
/// last such place, and the second what stands behind it. All other requests fail.
pub proof fn two_parameters_part_at_the_last_place(
    filter: PathFilter,
    first: Seq<char>,
    between: Seq<char>,
    second: Seq<char>,
    w: World,
    verdict: Verdict,
    after: World,
)
    requires
        is_name(first),
        is_name(second),
        between.len() > 0,
        !between.contains('/'),
        filter.pattern() == seq!['{'] + first + seq!['}'] + doubled(between) + (seq!['{'] + second
            + seq!['}']),
        between_parts(w.path),
        evaluated(filter, w, verdict, after),
    ensures
        verdict is Fail ==> after == w && (w.path.cursor.0 < w.path.parts.len() ==> forall|n: int|
            !#[trigger] parts_at(w.path.parts[w.path.cursor.0 as int], between, n)),
        verdict !is Waits,
        verdict is Pass ==> w.path.cursor.0 < w.path.parts.len() && exists|n: int|
            #[trigger] parts_at(w.path.parts[w.path.cursor.0 as int], between, n) && (forall|m: int|
                #[trigger] parts_at(w.path.parts[w.path.cursor.0 as int], between, m) ==> m <= n)
                && after == past_part(
                w,
                w.path.params.inserted(
                    first,
                    w.path.parts[w.path.cursor.0 as int].take(n),
                ).inserted(
                    second,
                    w.path.parts[w.path.cursor.0 as int].skip(n + between.len()),
                ),
                seq!['{'] + first + seq!['}'] + between + seq!['{'] + second + seq!['}'],
            ),
{
    let pattern = filter.pattern();
    let none = Seq::<PieceView>::empty();
    let x = PieceView::Any(first);
    let y = PieceView::Text(between);
    let z = PieceView::Any(second);
    lemma_name_end_here(first, seq![]);
    lemma_name_end_here(second, seq![]);
    assert(first + Seq::<char>::empty() =~= first);
    assert(second + Seq::<char>::empty() =~= second);
    assert(parameter(first) == Some(x));
    assert(parameter(second) == Some(z));
    lemma_doubled_slashless(between);
    let last = seq!['{'] + second + seq!['}'];
    let rest = doubled(between) + last;
    assert(pattern =~= seq!['{'] + first + seq!['}'] + rest);
    lemma_param_pieces(none, first, x, rest);
    lemma_text_pieces(none.push(x), between, last);
    lemma_param_pieces(none.push(x).push(y), second, z, seq![]);
    assert(last =~= seq!['{'] + second + seq!['}'] + Seq::<char>::empty());
    let pieces = none.push(x).push(y).push(z);
    assert(pieces_from(none, pattern) == Some(pieces));
    assert(!pattern.contains('/')) by {
        assert forall|i: int| 0 <= i < pattern.len() implies pattern[i] != '/' by {
            let n = first.len() as int + 2;
            let m = n + doubled(between).len();
            if 0 < i < n - 1 {
                assert(pattern[i] == first[i - 1]);
            } else if n <= i < m {
                assert(doubled(between).contains(doubled(between)[i - n]));
            } else if m < i < pattern.len() - 1 {
                assert(pattern[i] == second[i - m - 1]);
            }
        }
    }
    assert(pattern[1] == first[0]);
    assert(rest_marks(pattern.subrange(1, pattern.len() - 1)) == 0);
    let wisp = WispView::Mixed(pieces);
    assert(parsed_segment(pattern) == Some(wisp));
    lemma_single_wisp(pattern, wisp);
    lemma_pick_between(w.path);
    lemma_single_step(wisp, w.path);
    if w.path.cursor.0 < w.path.parts.len() {
        let segment = w.path.parts[w.path.cursor.0 as int];
        reveal_with_fuel(strung, 4);
        assert forall|n: int| #[trigger] parts_at(segment, between, n) implies deals_out(
            pieces,
            0,
            segment,
            dealt_at(segment, between, n),
        ) by {
            let values = dealt_at(segment, between, n);
            assert(values.drop_first().drop_first().len() == 1);
            assert(strung(values) =~= segment);
            assert(segment.subrange(n, n + between.len()) =~= between);
        }
        match cut(pieces, 0, segment) {
            Some(values) => {
                cut_deals_out_the_segment(pieces, 0, segment);
                let n = values[0].len() as int;
                assert(piece_takes(pieces[0 + 0int], values[0]));
                assert(piece_takes(pieces[0 + 1int], values[1]));
                assert(piece_takes(pieces[0 + 2int], values[2]));
                assert(values.drop_first().drop_first().len() == 1);
                assert(segment =~= values[0] + between + values[2]);
                assert(segment.take(n) =~= values[0]);
                assert(segment.skip(n + between.len()) =~= values[2]);
                assert(segment.subrange(n, n + between.len()) =~= between);
                assert(parts_at(segment, between, n));
                assert forall|m: int| #[trigger] parts_at(segment, between, m) implies m <= n by {
                    let other = dealt_at(segment, between, m);
                    earlier_parameters_take_more(pieces, 0, segment, other);
                    if values != other {
                        let k = choose|k: int|
                            0 <= k < other.len() && values.take(k) == other.take(k) && (
                            #[trigger] values[k]).len() > other[k].len();
                        if k > 0 {
                            assert(values.take(k)[0] == values[0]);
                            assert(other.take(k)[0] == other[0]);
                        }
                    }
                }
                reveal_with_fuel(captured, 4);
                reveal_with_fuel(shown, 4);
                assert(shown(pieces, 3) =~= seq!['{'] + first + seq!['}'] + between + seq!['{']
                    + second + seq!['}']);
            },
            None => {
                assert forall|n: int| !#[trigger] parts_at(segment, between, n) by {
                    if parts_at(segment, between, n) {
                        cut_is_found_where_there_is_one(
                            pieces,
                            0,
                            segment,
                            dealt_at(segment, between, n),
                        );
                    }
                }
            },
        }
    }
}

/// Whether `between` stands at `n` in a text, with something before and behind it.
pub open spec fn parts_at(text: Seq<char>, between: Seq<char>, n: int) -> bool {
    0 < n && n + between.len() < text.len() && text.subrange(n, n + between.len()) == between
}

spec fn dealt_at(text: Seq<char>, between: Seq<char>, n: int) -> Seq<Seq<char>> {
    seq![text.take(n), between, text.skip(n + between.len())]
}

/// The number that a text of digits stands for grows by one decimal place with each digit. No
/// number is read from the empty text, from a text with other characters, and where it is too
/// large for the machine.
pub proof fn numbers_are_read_digit_by_digit(s: Seq<char>, c: char)
    ensures
        number(Seq::<char>::empty()) is None,
        number(s.push(c)) == (if '0' <= c && c <= '9' {
            let d = (c as nat - '0' as nat) as nat;
            if s.len() == 0 {
                Some(d)
            } else {
                match number(s) {
                    Some(n) => if n * 10 + d <= usize::MAX {
                        Some(n * 10 + d)
                    } else {
                        None
                    },
                    None => None,
                }
            }
        } else {
            None
        }),
{
    let more = s.push(c);
    assert(more.drop_last() =~= s);
    assert(more[more.len() - 1] == c);
    if s.len() == 0 {
        assert(decimal(s) == 0);
    }
    assert forall|i: int| 0 <= i < s.len() implies #[trigger] s[i] == more[i] by {}
    if forall|i: int| 0 <= i < more.len() ==> is_digit(#[trigger] more[i]) {
        assert forall|i: int| 0 <= i < s.len() implies is_digit(#[trigger] s[i]) by {
            assert(is_digit(more[i]));
        }
    } else {
        let i = choose|i: int| 0 <= i < more.len() && !is_digit(#[trigger] more[i]);
        if i < s.len() {
            assert(!is_digit(s[i]));
        }
    }
}

proof fn lemma_first_dot_at(a: Seq<char>, rest: Seq<char>)
    requires
        !a.contains('.'),
        rest.len() > 0 ==> rest[0] == '.',
    ensures
        first_dot(a + rest) == a.len(),
    decreases a.len(),
{
    if a.len() == 0 {
        assert(a + rest =~= rest);
    } else {
        assert(a.contains(a[0]));
        assert forall|i: int| 0 <= i < a.skip(1).len() implies a.skip(1)[i] != '.' by {
            assert(a.contains(a[i + 1]));
        }
        lemma_first_dot_at(a.skip(1), rest);
        assert((a + rest).skip(1) =~= a.skip(1) + rest);
    }
}

/// How many digits a range allows: the number alone allows exactly so many; two dots behind a
/// number allow so many and more; two dots before a number allow fewer than that, and with an
/// equals sign up to that many; between two numbers the range starts with the first. A range
/// that allows nothing is malformed.
pub proof fn ranges_allow_what_they_say(a: Seq<char>, b: Seq<char>)
    requires
        a.len() == 0 || all_digits(a),
        all_digits(b),
    ensures
        widths(b) == match number(b) {
            Some(n) => Some((n, Some(n))),
            None => None,
        },
        widths(b + seq!['.', '.']) == match number(b) {
            Some(n) => Some((n, None::<nat>)),
            None => None,
        },
        widths(a + seq!['.', '.'] + b) == match (if a.len() == 0 {
            Some(1nat)
        } else {
            number(a)
        }, number(b)) {
            (Some(low), Some(end)) => if low < end {
                Some((low, Some((end - 1) as nat)))
            } else {
                None
            },
            _ => None,
        },
        widths(a + seq!['.', '.', '='] + b) == match (if a.len() == 0 {
            Some(1nat)
        } else {
            number(a)
        }, number(b)) {
            (Some(low), Some(high)) => if low <= high {
                Some((low, Some(high)))
            } else {
                None
            },
            _ => None,
        },
{
    assert(!a.contains('.'));
    assert(!b.contains('.'));
    lemma_first_dot_at(b, seq![]);
    assert(b + Seq::<char>::empty() =~= b);
    let open = b + seq!['.', '.'];
    lemma_first_dot_at(b, seq!['.', '.']);
    assert(open.take(b.len() as int) =~= b);
    assert(open.skip(b.len() as int + 2) =~= Seq::<char>::empty());
    let half = a + seq!['.', '.'] + b;
    lemma_first_dot_at(a, seq!['.', '.'] + b);
    assert(half =~= a + (seq!['.', '.'] + b));
    assert(half.take(a.len() as int) =~= a);
    assert(half.skip(a.len() as int + 2) =~= b);
    assert(half[a.len() as int + 1] == '.');
    assert('0' <= b[0]);
    let closed = a + seq!['.', '.', '='] + b;
    lemma_first_dot_at(a, seq!['.', '.', '='] + b);
    assert(closed =~= a + (seq!['.', '.', '='] + b));
    assert(closed.take(a.len() as int) =~= a);
    assert(closed.skip(a.len() as int + 2) =~= seq!['='] + b);
    assert((seq!['='] + b).skip(1) =~= b);
    assert(closed[a.len() as int + 1] == '.');
}

/// A constraint is the word `num`, for one digit and more, or that word and a range in
/// parentheses. Every other constraint is malformed.
pub proof fn constraints_ask_for_digits(range: Seq<char>, other: Seq<char>)
    requires
        range.len() > 0,
        other.len() < 3 || other.take(3) != seq!['n', 'u', 'm'],
    ensures
        num_widths(seq!['n', 'u', 'm']) == Some((1nat, None::<nat>)),
        num_widths(seq!['n', 'u', 'm', '('] + range + seq![')']) == widths(range),
        num_widths(other) is None,
{
    let word = seq!['n', 'u', 'm'];
    assert(word.take(3) =~= word);
    let constraint = seq!['n', 'u', 'm', '('] + range + seq![')'];
    assert(constraint.take(3) =~= word);
    assert(constraint.subrange(4, constraint.len() - 1) =~= range);
}

/// A brace that is opened and never closed, a brace that is closed and was never opened, a
/// parameter without a name, and a parameter with a constraint that is none make a pattern
/// malformed.
pub proof fn stray_braces_are_malformed(
    a: Seq<char>,
    t: Seq<char>,
    name: Seq<char>,
    constraint: Seq<char>,
)
    requires
        !a.contains('/'),
        no_braces(t),
        !t.contains('/'),
        is_name(name),
        no_braces(constraint),
        !constraint.contains('/'),
        num_widths(constraint) is None,
    ensures
        parsed(doubled(a) + (seq!['{'] + t)) is None,
        parsed(doubled(a) + (seq!['}'] + t)) is None,
        parsed(doubled(a) + (seq!['{', '}'] + t)) is None,
        parsed(doubled(a) + (seq!['{'] + name + seq![':'] + constraint + seq!['}'])) is None,
        parsed(doubled(a) + (seq!['{'] + name + seq!['|'] + constraint + seq!['}'])) is None,
{
    lemma_doubled_slashless(a);
    let none = Seq::<PieceView>::empty();
    let before = if a.len() == 0 {
        none
    } else {
        none.push(PieceView::Text(a))
    };
    let open = seq!['{'] + t;
    lemma_text_pieces(none, a, open);
    assert(open.skip(1) =~= t);
    lemma_first_brace_at(t, seq![]);
    assert(t + Seq::<char>::empty() =~= t);
    assert(pieces_from(before, open) is None);
    lemma_malformed_tail(a, open);
    let closed = seq!['}'] + t;
    lemma_text_pieces(none, a, closed);
    assert(pieces_from(before, closed) is None);
    lemma_malformed_tail(a, closed);
    let empty = seq!['{', '}'] + t;
    lemma_text_pieces(none, a, empty);
    assert(empty.skip(1)[0] == '}');
    assert(first_brace(empty.skip(1)) == 0);
    assert(empty.subrange(1, 1) =~= Seq::<char>::empty());
    assert(pieces_from(before, empty) is None);
    lemma_malformed_tail(a, empty);
    lemma_malformed_parameter(a, name, ':', constraint);
    lemma_malformed_parameter(a, name, '|', constraint);
}

proof fn lemma_malformed_parameter(
    a: Seq<char>,
    name: Seq<char>,
    separator: char,
    constraint: Seq<char>,
)
    requires
        !a.contains('/'),
        is_name(name),
        no_braces(constraint),
        !constraint.contains('/'),
        separator == '|' || (separator == ':' && num_widths(constraint) is None),
    ensures
        parsed(
            doubled(a) + (seq!['{'] + name + seq![separator] + constraint + seq!['}']),
        ) is None,
{
    let none = Seq::<PieceView>::empty();
    let before = if a.len() == 0 {
        none
    } else {
        none.push(PieceView::Text(a))
    };
    let inner = name + seq![separator] + constraint;
    let text = seq!['{'] + name + seq![separator] + constraint + seq!['}'];
    lemma_text_pieces(none, a, text);
    let tail = seq![separator] + constraint;
    assert(inner =~= name + tail);
    lemma_name_end_here(name, tail);
    assert(inner[name.len() as int] == separator);
    assert(inner.skip(name.len() as int + 1) =~= constraint);
    assert(inner[0] == name[0]);
    assert(parameter(inner) is None);
    assert(no_braces(inner)) by {
        assert forall|i: int| 0 <= i < inner.len() implies #[trigger] inner[i] != '{' && inner[i]
            != '}' by {
            if i < name.len() {
                assert(inner[i] == name[i]);
            } else if i > name.len() {
                assert(inner[i] == constraint[i - name.len() - 1]);
            }
        }
    }
    assert(text.skip(1) =~= inner + seq!['}']);
    lemma_first_brace_at(inner, seq!['}']);
    let end = inner.len() as int + 1;
    assert(text[1] == name[0]);
    assert(text[end] == '}');
    assert(text.subrange(1, end) =~= inner);
    assert(pieces_from(before, text) is None);
    assert forall|i: int| 0 <= i < text.len() implies text[i] != '/' by {
        if 0 < i <= name.len() {
            assert(text[i] == name[i - 1]);
        } else if name.len() + 1 < i < text.len() - 1 {
            assert(constraint.contains(constraint[i - name.len() - 2]));
        }
    }
    lemma_malformed_tail(a, text);
}

proof fn lemma_malformed_tail(a: Seq<char>, text: Seq<char>)
    requires
        !a.contains('/'),
        !text.contains('/'),
        text.len() > 0,
        text[0] == '{' && text.len() > 1 ==> text[1] != '*' || text.last() != '}',
        pieces_from(Seq::<PieceView>::empty(), doubled(a) + text) is None,
    ensures
        parsed(doubled(a) + text) is None,
{
    let pattern = doubled(a) + text;
    lemma_doubled_slashless(a);
    assert forall|i: int| 0 <= i < pattern.len() implies pattern[i] != '/' by {
        if i < doubled(a).len() {
            assert(doubled(a).contains(doubled(a)[i]));
        } else {
            assert(text.contains(text[i - doubled(a).len()]));
        }
    }
    if pattern.len() >= 2 && pattern[0] == '{' && pattern.last() == '}' {
        let inner = pattern.subrange(1, pattern.len() - 1);
        if a.len() > 0 {
            assert(pattern[1] == doubled(a)[1]);
            if inner.len() > 0 {
                assert(inner[0] == pattern[1]);
            }
        } else {
            assert(pattern =~= text);
            if inner.len() > 0 {
                assert(inner[0] == text[1]);
            }
        }
        assert(rest_marks(inner) == 0);
    }
    assert(rest_parameter(pattern) is None);
    text_without_slashes_is_one_part(pattern);
    let parts = path_parts(pattern);
    assert(parts[0] == pattern);
    assert(parsed_segments(parts, 1) is None);
}

/// A brace that opens inside a parameter makes a pattern malformed.
pub proof fn nested_parameter_is_malformed(a: Seq<char>, t: Seq<char>, u: Seq<char>)
    requires
        !a.contains('/'),
        no_braces(t),
        t.len() > 0,
        t[0] != '*',
        !t.contains('/'),
        !u.contains('/'),
    ensures
        parsed(doubled(a) + (seq!['{'] + t + seq!['{'] + u)) is None,
{
    let none = Seq::<PieceView>::empty();
    let before = if a.len() == 0 {
        none
    } else {
        none.push(PieceView::Text(a))
    };
    let text = seq!['{'] + t + seq!['{'] + u;
    lemma_text_pieces(none, a, text);
    assert(text.skip(1) =~= t + (seq!['{'] + u));
    lemma_first_brace_at(t, seq!['{'] + u);
    assert(text[1] == t[0]);
    assert(text[t.len() as int + 1] == '{');
    assert(pieces_from(before, text) is None);
    assert forall|i: int| 0 <= i < text.len() implies text[i] != '/' by {
        if 0 < i <= t.len() {
            assert(t.contains(t[i - 1]));
        } else if i > t.len() + 1 {
            assert(u.contains(u[i - t.len() - 2]));
        }
    }
    lemma_malformed_tail(a, text);
}

/// A rest parameter is a segment of its own: with a literal text before or behind it in the
/// segment, a pattern is malformed.
pub proof fn rest_parameter_stands_alone(a: Seq<char>, name: Seq<char>, b: Seq<char>)
    requires
        !a.contains('/'),
        !b.contains('/'),
        a.len() > 0 || b.len() > 0,
        no_braces(name),
        !name.contains('/'),
    ensures
        parsed(doubled(a) + (seq!['{', '*'] + name + seq!['}'] + doubled(b))) is None,
{
    let none = Seq::<PieceView>::empty();
    let before = if a.len() == 0 {
        none
    } else {
        none.push(PieceView::Text(a))
    };
    let inner = seq!['*'] + name;
    let text = seq!['{', '*'] + name + seq!['}'] + doubled(b);
    let pattern = doubled(a) + text;
    lemma_doubled_slashless(a);
    lemma_doubled_slashless(b);
    lemma_text_pieces(none, a, text);
    assert(no_braces(inner));
    assert(text.skip(1) =~= inner + (seq!['}'] + doubled(b)));
    lemma_first_brace_at(inner, seq!['}'] + doubled(b));
    let end = inner.len() as int + 1;
    assert(text[1] == '*');
    assert(text[end] == '}');
    assert(text.subrange(1, end) =~= inner);
    assert(parameter(inner) is None);
    assert(pieces_from(before, text) is None);
    assert forall|i: int| 0 <= i < pattern.len() implies pattern[i] != '/' by {
        let n = doubled(a).len() as int;
        let m = n + end;
        if i < n {
            assert(doubled(a).contains(doubled(a)[i]));
        } else if n + 1 < i < m {
            assert(name.contains(name[i - n - 2]));
        } else if i > m {
            assert(doubled(b).contains(doubled(b)[i - m - 1]));
        }
    }
    let body = pattern.subrange(1, pattern.len() - 1);
    if a.len() > 0 {
        if pattern[0] == '{' {
            assert(pattern[1] == doubled(a)[1]);
            assert(body[0] == pattern[1]);
            assert(rest_marks(body) == 0);
        }
    } else {
        assert(pattern =~= text);
        assert(body =~= inner + (seq!['}'] + doubled(b).drop_last()));
        lemma_first_brace_at(inner, seq!['}'] + doubled(b).drop_last());
    }
    assert(rest_parameter(pattern) is None);
    text_without_slashes_is_one_part(pattern);
    let parts = path_parts(pattern);
    assert(parts[0] == pattern);
    assert(parsed_segments(parts, 1) is None);
}

/// A range without dots is a number or malformed. A single dot is malformed, and so is what
/// follows the word `num` without being a range in parentheses.
pub proof fn other_ranges_are_malformed(s: Seq<char>, t: Seq<char>, constraint: Seq<char>)
    requires
        !s.contains('.'),
        t.len() > 0 ==> t[0] != '.',
        constraint.len() > 3,
        constraint[3] != '(' || constraint[constraint.len() - 1] != ')' || constraint.len() == 4,
    ensures
        widths(s) == match number(s) {
            Some(n) => Some((n, Some(n))),
            None => None,
        },
        widths(s + seq!['.'] + t) is None,
        num_widths(constraint) is None,
{
    lemma_first_dot_at(s, seq![]);
    assert(s + Seq::<char>::empty() =~= s);
    let dotted = s + seq!['.'] + t;
    lemma_first_dot_at(s, seq!['.'] + t);
    assert(dotted =~= s + (seq!['.'] + t));
    if t.len() > 0 {
        assert(dotted[s.len() as int + 1] == t[0]);
    }
}

/// Behind a rest parameter, nothing can stand.
pub proof fn nothing_stands_behind_a_rest_parameter(first: Seq<char>, second: Seq<char>)
    requires
        parsed(first) matches Some(wisps) && wisps.len() > 0 && wisps.last() is Rest,
        path_parts(second).len() > 0,
    ensures
        parsed(first + seq!['/'] + second) is None,
{
    let p = path_parts(first);
    let q = path_parts(second);
    parts_of_joined_texts(first, second);
    lemma_parsed_front(p, q, p.len() as int);
    lemma_none_further(p + q, p.len() as int + 1, (p + q).len() as int);
}

proof fn lemma_none_further(segments: Seq<Seq<char>>, n: int, m: int)
    requires
        0 <= n <= m,
        parsed_segments(segments, n) is None,
    ensures
        parsed_segments(segments, m) is None,
    decreases m - n,
{
    if n < m {
        lemma_none_further(segments, n, m - 1);
    }
}

/// The segment that comes next is what is left of the part that the walk stands in, and the next
/// part where nothing is left of it. There is none behind the last part.
pub proof fn next_segment_is_what_is_left(path: PathView)
    ensures
        path.cursor.0 >= path.parts.len() ==> path.pick() is None && path.is_ended(),
        path.cursor.0 < path.parts.len() ==> !path.is_ended(),
        path.cursor.0 < path.parts.len() && path.cursor.1
            < path.parts[path.cursor.0 as int].len() ==> path.pick() == Some(
            path.parts[path.cursor.0 as int].skip(path.cursor.1 as int),
        ),
        path.cursor.0 + 1 < path.parts.len() && path.cursor.1
            >= path.parts[path.cursor.0 as int].len() ==> path.pick() == Some(
            path.parts[path.cursor.0 + 1],
        ),
{
}

} // verus!
